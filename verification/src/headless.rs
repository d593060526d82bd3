//! Converting without a window: the run, and what it prints.

use crate::audit;
use crate::audit::Task;
use crate::convert;
use crate::convert::{Format, MaxEdge, Quality};
use crate::estimate;
use crate::number::Precision;
use crate::report;
use crate::report::{distance, share_of};
use crate::scan;
use crate::scan::{format_bytes, Entry};
use crate::text;
use crate::text::{chars_of, decimal_of};
use vstd::prelude::*;

verus! {

/// `n` blanks.
pub open spec fn blanks(n: int) -> Seq<char> {
    Seq::new(
        if n > 0 {
            n as nat
        } else {
            0
        },
        |i: int| ' ',
    )
}

/// `text` with blanks behind it, up to `width` characters.
pub open spec fn to_the_left(text: Seq<char>, width: int) -> Seq<char> {
    text + blanks(width - text.len())
}

/// `text` with blanks in front of it, up to `width` characters.
pub open spec fn to_the_right(text: Seq<char>, width: int) -> Seq<char> {
    blanks(width - text.len()) + text
}

fn gap(taken: usize, width: usize) -> (out: String)
    ensures
        out@ == blanks(width - taken),
{
    let mut out = String::new();
    let mut i: usize = taken;
    assert(out@ =~= blanks(0));
    while i < width
        invariant
            taken <= i,
            i <= width || i == taken,
            out@ == blanks(i - taken),
        decreases width - i,
    {
        out.push(' ');
        i += 1;
        assert(out@ =~= blanks(i - taken));
    }
    assert(blanks(i - taken) =~= blanks(width - taken));
    out
}

/// The width of the column of names, and of a column of sizes.
pub const NAME_COLUMN: usize = 52;

pub const SIZE_COLUMN: usize = 9;

/// What one file became.
#[derive(Clone, Copy, Debug)]
pub struct Outcome {
    pub bytes: u64,
    pub width: u32,
    pub height: u32,
}

/// The change of a size in percent of `before`, with its sign: what was saved counts
/// up.
pub open spec fn signed_share(before: nat, after: nat) -> Seq<char> {
    (if after > before {
        "-"@
    } else {
        "+"@
    }) + report::share_text(report::apart(before, after), before, Precision::Double)
}

/// The line for one file: its name, its size before and after, and what that saved; and
/// its new dimensions where it was resized.
pub open spec fn file_text(entry: Entry, outcome: Option<Outcome>) -> Seq<char> {
    let name = to_the_left(scan::title(entry.path@), NAME_COLUMN as int);
    match outcome {
        Some(outcome) => name + " "@ + to_the_right(
            scan::size_text(entry.bytes as nat),
            SIZE_COLUMN as int,
        ) + " -> "@ + to_the_right(scan::size_text(outcome.bytes as nat), SIZE_COLUMN as int)
            + "  "@ + signed_share(entry.bytes as nat, outcome.bytes as nat) + "%"@ + (
        if outcome.width == entry.width {
            seq![]
        } else {
            "  "@ + text::decimal(outcome.width as nat) + "x"@ + text::decimal(
                outcome.height as nat,
            )
        }),
        None => name + " failed"@,
    }
}

fn left(words: &str, width: usize) -> (out: String)
    ensures
        out@ == to_the_left(words@, width as int),
{
    let mut out = words.to_string();
    out.append(gap(chars_of(words).len(), width).as_str());
    out
}

fn right(words: &str, width: usize) -> (out: String)
    ensures
        out@ == to_the_right(words@, width as int),
{
    let mut out = gap(chars_of(words).len(), width);
    out.append(words);
    out
}

/// The line for one file.
pub fn file_line(entry: &Entry, outcome: Option<Outcome>) -> (out: String)
    ensures
        out@ == file_text(*entry, outcome),
{
    let mut out = left(entry.name().as_str(), NAME_COLUMN);
    match outcome {
        Some(outcome) => {
            let mut share = (if outcome.bytes > entry.bytes {
                "-"
            } else {
                "+"
            }).to_string();
            share.append(
                share_of(
                    distance(entry.bytes, outcome.bytes),
                    entry.bytes,
                    Precision::Double,
                ).as_str(),
            );
            let mut resized = String::new();
            if outcome.width != entry.width {
                resized = "  ".to_string();
                resized.append(decimal_of(outcome.width as u128).as_str());
                resized.append("x");
                resized.append(decimal_of(outcome.height as u128).as_str());
            }
            out.append(" ");
            out.append(right(format_bytes(entry.bytes).as_str(), SIZE_COLUMN).as_str());
            out.append(" -> ");
            out.append(right(format_bytes(outcome.bytes).as_str(), SIZE_COLUMN).as_str());
            out.append("  ");
            out.append(share.as_str());
            out.append("%");
            out.append(resized.as_str());
        },
        None => {
            out.append(" failed");
        },
    }
    out
}

/// What a run has come to so far.
#[derive(Clone, Copy, Debug, PartialEq, Eq, Structural)]
pub struct Totals {
    /// Bytes of the sources that were converted.
    pub before: u64,
    /// Bytes of what they became.
    pub after: u64,
    /// Files that could not be converted.
    pub failed: usize,
}

/// The sums over what came of the files, in any order: bytes before, bytes after, and
/// how many failed.
pub open spec fn sums(outcomes: Seq<(u64, Option<u64>)>, n: int) -> (nat, nat, nat)
    decreases n,
{
    if n <= 0 {
        (0, 0, 0)
    } else {
        let (before, after, failed) = sums(outcomes, n - 1);
        match outcomes[n - 1].1 {
            Some(bytes) => (before + outcomes[n - 1].0 as nat, after + bytes as nat, failed),
            None => (before, after, failed + 1),
        }
    }
}

fn capped_sum(a: u64, b: u64) -> (out: u64)
    ensures
        out == audit::capped((a + b) as nat),
{
    if a <= u64::MAX - b {
        a + b
    } else {
        u64::MAX
    }
}

/// Add up what came of the files: for each its own size, and the size it became where
/// it was converted.
pub fn total(outcomes: &Vec<(u64, Option<u64>)>) -> (out: Totals)
    ensures
        ({
            let (before, after, failed) = sums(outcomes@, outcomes@.len() as int);
            &&& out.before == audit::capped(before)
            &&& out.after == audit::capped(after)
            &&& out.failed == failed
        }),
{
    let mut totals = Totals { before: 0, after: 0, failed: 0 };
    let mut i: usize = 0;
    while i < outcomes.len()
        invariant
            i <= outcomes@.len(),
            totals.before == audit::capped(sums(outcomes@, i as int).0),
            totals.after == audit::capped(sums(outcomes@, i as int).1),
            totals.failed == sums(outcomes@, i as int).2 <= i,
        decreases outcomes@.len() - i,
    {
        match outcomes[i].1 {
            Some(bytes) => {
                totals.before = capped_sum(totals.before, outcomes[i].0);
                totals.after = capped_sum(totals.after, bytes);
            },
            None => {
                totals.failed = totals.failed + 1;
            },
        }
        i += 1;
    }
    totals
}

/// The line a run ends with.
pub open spec fn closing_text(
    files: nat,
    totals: Totals,
    format: Format,
    quality: Quality,
    max_edge: MaxEdge,
) -> Seq<char> {
    let (before, after) = (totals.before as nat, totals.after as nat);
    "\n"@ + text::decimal((files - totals.failed) as nat) + " converted to "@
        + convert::format_text(format) + " at "@ + quality.label_text() + " ("@
        + max_edge.label_text() + "): "@ + scan::size_text(before) + " -> "@ + scan::size_text(
        after,
    ) + ", "@ + (if after > before {
        "grew "@
    } else {
        "saved "@
    }) + scan::size_text(report::apart(before, after)) + " ("@ + report::share_text(
        report::apart(before, after),
        before,
        Precision::Double,
    ) + "%)"@ + (if totals.failed == 0 {
        seq![]
    } else {
        ", "@ + text::decimal(totals.failed as nat) + " failed"@
    })
}

/// The line a run ends with: how many files it converted to what, and what that saved.
pub fn closing_line(
    files: usize,
    totals: &Totals,
    format: Format,
    quality: Quality,
    max_edge: MaxEdge,
) -> (out: String)
    requires
        totals.failed <= files,
    ensures
        out@ == closing_text(files as nat, *totals, format, quality, max_edge),
{
    let apart: u64 = distance(totals.before, totals.after);
    let mut failed = String::new();
    if totals.failed > 0 {
        failed = ", ".to_string();
        failed.append(decimal_of(totals.failed as u128).as_str());
        failed.append(" failed");
    }
    let mut out = "\n".to_string();
    out.append(decimal_of((files - totals.failed) as u128).as_str());
    out.append(" converted to ");
    out.append(format.label());
    out.append(" at ");
    out.append(quality.label().as_str());
    out.append(" (");
    out.append(max_edge.label().as_str());
    out.append("): ");
    out.append(format_bytes(totals.before).as_str());
    out.append(" -> ");
    out.append(format_bytes(totals.after).as_str());
    out.append(", ");
    out.append(
        if totals.after > totals.before {
            "grew "
        } else {
            "saved "
        },
    );
    out.append(format_bytes(apart).as_str());
    out.append(" (");
    out.append(share_of(apart, totals.before, Precision::Double).as_str());
    out.append("%)");
    out.append(failed.as_str());
    out
}

/// The line that says where a run has written.
pub fn written_line(root: &str) -> (out: String)
    ensures
        out@ == "written to "@ + audit::output_folder(root@),
{
    text::glued("written to ", audit::out_dir_of(root).as_str())
}

/// The line that says what was found.
pub fn scanned_line(entries: &Vec<Entry>, skipped_raw: usize) -> (out: String)
    requires
        audit::weighable(entries@),
    ensures
        out@ == text::decimal(entries@.len()) + " images, "@ + scan::size_text(
            estimate::bytes_of(
                entries@,
                audit::every_index(entries@),
                0,
                entries@.len() as int,
            ),
        ) + " on disk, "@ + text::decimal(skipped_raw as nat) + " camera raw skipped"@,
{
    let all = scan::upto(entries.len());
    assert(all@ =~= audit::every_index(entries@));
    let bytes = estimate::sum_bytes(entries, &all, 0, entries.len());
    let mut out = decimal_of(entries.len() as u128);
    out.append(" images, ");
    out.append(format_bytes(bytes).as_str());
    out.append(" on disk, ");
    out.append(decimal_of(skipped_raw as u128).as_str());
    out.append(" camera raw skipped");
    out
}

/// Plan the conversion of a whole folder.
pub fn plan(root: &str, entries: &Vec<Entry>, format: Format) -> (out: Vec<Task>)
    ensures
        audit::are_planned(root@, entries@, audit::every_index(entries@), format, out@),
{
    let all = scan::upto(entries.len());
    assert(all@ =~= audit::every_index(entries@));
    audit::plan_tasks(root, entries, &all, format)
}

/// What a run comes to: the files that were converted add to both sums, and the others to
/// the failures, each just once.
pub proof fn law_every_outcome_counts_once(outcomes: Seq<(u64, Option<u64>)>, n: int)
    requires
        0 <= n <= outcomes.len(),
    ensures
        sums(outcomes, n).2 == outcomes.take(n).filter(
            |outcome: (u64, Option<u64>)| outcome.1 is None,
        ).len(),
        n > 0 ==> match outcomes[n - 1].1 {
            Some(bytes) => {
                &&& sums(outcomes, n).0 == sums(outcomes, n - 1).0 + outcomes[n - 1].0
                &&& sums(outcomes, n).1 == sums(outcomes, n - 1).1 + bytes
                &&& sums(outcomes, n).2 == sums(outcomes, n - 1).2
            },
            None => {
                &&& sums(outcomes, n).0 == sums(outcomes, n - 1).0
                &&& sums(outcomes, n).1 == sums(outcomes, n - 1).1
                &&& sums(outcomes, n).2 == sums(outcomes, n - 1).2 + 1
            },
        },
    decreases n,
{
    reveal(Seq::filter);
    if n > 0 {
        law_every_outcome_counts_once(outcomes, n - 1);
        assert(outcomes.take(n).drop_last() =~= outcomes.take(n - 1));
        assert(outcomes.take(n).last() == outcomes[n - 1]);
    }
}

/// A name in its column keeps all of its letters and is padded to the column's width.
pub proof fn law_columns_line_up(text: Seq<char>, width: nat)
    ensures
        to_the_left(text, width as int).take(text.len() as int) == text,
        to_the_right(text, width as int).skip(
            to_the_right(text, width as int).len() - text.len(),
        ) == text,
        text.len() <= width ==> to_the_left(text, width as int).len() == width && to_the_right(
            text,
            width as int,
        ).len() == width,
        text.len() >= width ==> to_the_left(text, width as int) == text && to_the_right(
            text,
            width as int,
        ) == text,
{
    let (left, right) = (to_the_left(text, width as int), to_the_right(text, width as int));
    assert(left.take(text.len() as int) =~= text);
    assert(right.skip(right.len() - text.len()) =~= text);
    if text.len() >= width {
        assert(left =~= text && right =~= text);
    }
}

/// A file that grew is marked with a minus, and every other one with a plus.
pub proof fn law_growth_is_marked(before: nat, after: nat)
    ensures
        after > before ==> signed_share(before, after) == "-"@ + report::share_text(
            (after - before) as nat,
            before,
            Precision::Double,
        ),
        after <= before ==> signed_share(before, after) == "+"@ + report::share_text(
            (before - after) as nat,
            before,
            Precision::Double,
        ),
{
}

} // verus!
