//! What the window and the command line say in words.

use crate::audit;
use crate::audit::Audit;
use crate::convert::{Format, Quality};
use crate::estimate;
use crate::number;
use crate::number::Precision;
use crate::paths;
use crate::scan;
use crate::scan::format_bytes;
use crate::sync::{Job, JobKind, Listing, Remote};
use crate::text;
use crate::text::{decimal_of, glued, join};
use vstd::prelude::*;

verus! {

broadcast use vstd::std_specs::hash::group_hash_axioms;

/// The colours the window speaks in.
#[derive(Clone, Copy, Debug, PartialEq, Eq, Structural)]
pub enum Tone {
    Foreground,
    Muted,
    Primary,
    Green,
    Yellow,
    Red,
    Blue,
}

/// How many names a report gives before it counts.
pub const NAMED: usize = 3;

/// A few names and then a count.
pub open spec fn named_text(names: Seq<Seq<char>>) -> Seq<char> {
    if names.len() <= NAMED {
        text::joined(names, ", "@)
    } else {
        text::joined(names.take(NAMED as int), ", "@) + " and "@ + text::decimal(
            (names.len() - NAMED) as nat,
        ) + " more"@
    }
}

/// The first of `names`, no more than a report gives.
fn few(names: &Vec<String>) -> (out: Vec<String>)
    ensures
        text::views(out@) == if names@.len() <= NAMED {
            text::views(names@)
        } else {
            text::views(names@).take(NAMED as int)
        },
{
    let mut out: Vec<String> = Vec::new();
    let mut i: usize = 0;
    let end: usize = if names.len() < NAMED {
        names.len()
    } else {
        NAMED
    };
    while i < end
        invariant
            i <= end <= names@.len(),
            out@.len() == i,
            forall|j: int| 0 <= j < i ==> (#[trigger] out@[j])@ == names@[j]@,
        decreases end - i,
    {
        out.push(names[i].clone());
        i += 1;
    }
    proof {
        let all = text::views(names@);
        assert(text::views(out@) =~= all.take(end as int));
        assert(names@.len() <= NAMED ==> all.take(end as int) =~= all);
    }
    out
}

/// A few names and then a count, rather than a count alone. Used wherever the window
/// reports a set of files it could not handle.
pub fn named(names: &Vec<String>) -> (out: String)
    ensures
        out@ == named_text(text::views(names@)),
{
    let mut out = join(&few(names), ", ");
    if names.len() > NAMED {
        out.append(" and ");
        out.append(decimal_of((names.len() - NAMED) as u128).as_str());
        out.append(" more");
    }
    out
}

/// A container as a heading shows it.
pub open spec fn caps_text(format: Format) -> Seq<char> {
    match format {
        Format::WebP => "WEBP"@,
        Format::Avif => "AVIF"@,
    }
}

/// A container as a heading shows it: its label in capitals.
pub fn caps(format: Format) -> (out: &'static str)
    ensures
        out@ == caps_text(format),
{
    match format {
        Format::WebP => "WEBP",
        Format::Avif => "AVIF",
    }
}

/// `part` in percent of `whole`, which counts for one at least.
pub open spec fn share(part: nat, whole: nat, precision: Precision) -> (nat, int) {
    number::product(
        scan::ratio(
            part,
            if whole > 1 {
                whole
            } else {
                1
            },
            precision,
        ),
        number::nearest(100, 1, precision),
        precision,
    )
}

/// `part` in percent of `whole`, to the nearest whole number.
pub open spec fn share_text(part: nat, whole: nat, precision: Precision) -> Seq<char> {
    number::fixed(share(part, whole, precision), 0)
}

/// `part` in percent of `whole`, in words.
pub fn share_of(part: u64, whole: u64, precision: Precision) -> (out: String)
    ensures
        out@ == share_text(part as nat, whole as nat, precision),
{
    let top = number::whole(part, precision);
    let bottom = number::whole(
        if whole > 1 {
            whole
        } else {
            1
        },
        precision,
    );
    let ratio = number::divide(top, bottom, precision);
    let hundred = number::whole(100, precision);
    let value = number::multiply(ratio, hundred, precision);
    number::fixed_of(value, 0, precision)
}

/// What the window calls the open folder: the last name of its path, or all of it.
pub fn folder_label(root: &str) -> (out: String)
    ensures
        out@ == audit::scan_label(root@),
{
    match paths::file_name(root) {
        Some(name) => name,
        None => root.to_string(),
    }
}

/// The window's title.
pub open spec fn title_text(root: Seq<char>) -> Seq<char> {
    match paths::last_name(root) {
        Some(name) => name + " — ImageGuide"@,
        None => "ImageGuide"@,
    }
}

/// The window's title: the open folder and the program.
pub fn window_title(root: &str) -> (out: String)
    ensures
        out@ == title_text(root@),
{
    match paths::file_name(root) {
        Some(name) => glued(name.as_str(), " — ImageGuide"),
        None => "ImageGuide".to_string(),
    }
}

/// How many images are shown, of how many, and what they weigh.
pub open spec fn images_text(shown: nat, all: nat, bytes: nat) -> Seq<char> {
    if shown == all {
        text::decimal(shown) + " images · "@ + scan::size_text(bytes)
    } else {
        text::decimal(shown) + " of "@ + text::decimal(all) + " images · "@ + scan::size_text(bytes)
    }
}

/// How many camera raw files were passed over.
pub open spec fn raw_text(skipped: nat) -> Seq<char> {
    if skipped > 0 {
        " · "@ + text::decimal(skipped) + " camera raw skipped"@
    } else {
        seq![]
    }
}

/// How the folder stands against its pairing. A pairing whose listing is still running
/// and one whose listing failed are two different things to say.
pub open spec fn pairing_text(remote: Remote) -> Seq<char> {
    match remote.pairing {
        Some(pairing) => match remote.counts {
            Some((to_push, changed, to_pull)) => " · Sirv: "@ + text::decimal(to_push as nat)
                + " to push · "@ + text::decimal(changed as nat) + " differ · "@ + text::decimal(
                to_pull as nat,
            ) + " to pull"@,
            None => match pairing.files {
                Listing::Walking => " · Sirv: listing…"@,
                Listing::Failed(_) => " · Sirv: listing failed"@,
                Listing::Ready(_) => seq![],
            },
        },
        None => seq![],
    }
}

/// The line of numbers under the folder's name.
pub open spec fn stats_text(audit: Audit) -> Seq<char> {
    images_text(
        audit.visible@.len(),
        audit.entries@.len(),
        audit.visible_bytes as nat,
    ) + raw_text(audit.skipped_raw as nat) + pairing_text(audit.remote)
}

fn images(shown: usize, all: usize, bytes: u64) -> (out: String)
    ensures
        out@ == images_text(shown as nat, all as nat, bytes as nat),
{
    let mut out = decimal_of(shown as u128);
    if shown != all {
        out.append(" of ");
        out.append(decimal_of(all as u128).as_str());
    }
    out.append(" images · ");
    out.append(format_bytes(bytes).as_str());
    out
}

fn raw(skipped: usize) -> (out: String)
    ensures
        out@ == raw_text(skipped as nat),
{
    if skipped == 0 {
        return String::new();
    }
    let mut out = " · ".to_string();
    out.append(decimal_of(skipped as u128).as_str());
    out.append(" camera raw skipped");
    out
}

fn pairing(remote: &Remote) -> (out: String)
    ensures
        out@ == pairing_text(*remote),
{
    match &remote.pairing {
        Some(pairing) => match remote.counts {
            Some((to_push, changed, to_pull)) => {
                let mut out = " · Sirv: ".to_string();
                out.append(decimal_of(to_push as u128).as_str());
                out.append(" to push · ");
                out.append(decimal_of(changed as u128).as_str());
                out.append(" differ · ");
                out.append(decimal_of(to_pull as u128).as_str());
                out.append(" to pull");
                out
            },
            None => match &pairing.files {
                Listing::Walking => " · Sirv: listing…".to_string(),
                Listing::Failed(_) => " · Sirv: listing failed".to_string(),
                Listing::Ready(_) => String::new(),
            },
        },
        None => String::new(),
    }
}

/// The line of numbers under the folder's name: what is shown, what was passed over,
/// and how the folder stands against its pairing.
pub fn stats(audit: &Audit) -> (out: String)
    ensures
        out@ == stats_text(*audit),
{
    let mut out = images(audit.visible.len(), audit.entries.len(), audit.visible_bytes);
    out.append(raw(audit.skipped_raw).as_str());
    out.append(pairing(&audit.remote).as_str());
    out
}

/// The names of the files at `paths` that end in one.
pub open spec fn file_names(paths: Seq<Seq<char>>, n: int) -> Seq<Seq<char>>
    decreases n,
{
    if n <= 0 {
        seq![]
    } else {
        match paths::last_name(paths[n - 1]) {
            Some(name) => file_names(paths, n - 1).push(name),
            None => file_names(paths, n - 1),
        }
    }
}

fn names_of(list: &Vec<String>) -> (out: Vec<String>)
    ensures
        text::views(out@) == file_names(text::views(list@), list@.len() as int),
{
    let mut out: Vec<String> = Vec::new();
    let ghost all = text::views(list@);
    let mut i: usize = 0;
    assert(text::views(out@) =~= file_names(all, 0));
    while i < list.len()
        invariant
            i <= list@.len(),
            all == text::views(list@),
            text::views(out@) == file_names(all, i as int),
        decreases list@.len() - i,
    {
        assert(all[i as int] == list@[i as int]@);
        if let Some(name) = paths::file_name(list[i].as_str()) {
            let ghost before = out@;
            out.push(name);
            assert(text::views(out@) =~= text::views(before).push(name@));
        }
        i += 1;
    }
    out
}

/// How many files failed, and the names a report gives of them.
pub open spec fn failures_text(failures: Seq<Seq<char>>, shown: Seq<Seq<char>>) -> Seq<char> {
    if failures.len() == 0 {
        seq![]
    } else {
        ", "@ + text::decimal(failures.len()) + " failed: "@ + text::joined(shown, ", "@)
    }
}

fn failed(failures: &Vec<String>, shown: &Vec<String>) -> (out: String)
    ensures
        out@ == failures_text(text::views(failures@), text::views(shown@)),
{
    if failures.len() == 0 {
        return String::new();
    }
    let mut out = ", ".to_string();
    out.append(decimal_of(failures.len() as u128).as_str());
    out.append(" failed: ");
    out.append(join(shown, ", ").as_str());
    out
}

/// A transfer as the browser reports it, with every failure named once it has finished.
pub open spec fn transfer_text(job: Job) -> Seq<char> {
    let (done, total) = (text::decimal(job.done as nat), text::decimal(job.total as nat));
    let failures = text::views(job.failures@);
    if job.finished {
        (match job.kind {
            JobKind::Pull => "Pulled "@,
            JobKind::Push => "Pushed "@,
        }) + done + " of "@ + total + failures_text(failures, failures)
    } else {
        (match job.kind {
            JobKind::Pull => "Pulling "@,
            JobKind::Push => "Pushing "@,
        }) + done + " of "@ + total + "…"@
    }
}

/// A transfer as the browser reports it.
pub fn transfer_line(job: &Job) -> (out: String)
    ensures
        out@ == transfer_text(*job),
{
    let verb = match (job.finished, job.kind) {
        (true, JobKind::Pull) => "Pulled ",
        (true, JobKind::Push) => "Pushed ",
        (false, JobKind::Pull) => "Pulling ",
        (false, JobKind::Push) => "Pushing ",
    };
    let mut out = verb.to_string();
    out.append(decimal_of(job.done as u128).as_str());
    out.append(" of ");
    out.append(decimal_of(job.total as u128).as_str());
    if job.finished {
        out.append(failed(&job.failures, &job.failures).as_str());
    } else {
        out.append("…");
    }
    out
}

/// A transfer as the notices report it, with a few failures named.
pub open spec fn transfer_notice(job: Job) -> Seq<char> {
    let failures = text::views(job.failures@);
    (match job.kind {
        JobKind::Pull => "Sirv pull: "@,
        JobKind::Push => "Sirv push: "@,
    }) + text::decimal(job.done as nat) + " of "@ + text::decimal(job.total as nat)
        + failures_text(
        failures,
        if failures.len() <= NAMED {
            failures
        } else {
            failures.take(NAMED as int)
        },
    )
}

fn transfer_part(job: &Job) -> (out: String)
    ensures
        out@ == transfer_notice(*job),
{
    let mut out = (match job.kind {
        JobKind::Pull => "Sirv pull: ",
        JobKind::Push => "Sirv push: ",
    }).to_string();
    out.append(decimal_of(job.done as u128).as_str());
    out.append(" of ");
    out.append(decimal_of(job.total as u128).as_str());
    out.append(failed(&job.failures, &few(&job.failures)).as_str());
    out
}

/// The files that would not decode.
pub open spec fn unreadable_parts(unreadable: Seq<Seq<char>>) -> Seq<Seq<char>> {
    if unreadable.len() == 0 {
        seq![]
    } else {
        seq![
            "would not decode: "@ + named_text(file_names(unreadable, unreadable.len() as int)),
        ]
    }
}

/// What the output folder held before.
pub open spec fn output_parts(existing: nat) -> Seq<Seq<char>> {
    if existing == 0 {
        seq![]
    } else if existing == 1 {
        seq![scan::OUTPUT_DIR@ + "/ already holds 1 file"@]
    } else {
        seq![scan::OUTPUT_DIR@ + "/ already holds "@ + text::decimal(existing) + " files"@]
    }
}

/// The files a conversion could not read or write.
pub open spec fn failed_parts(failures: Seq<Seq<char>>) -> Seq<Seq<char>> {
    if failures.len() == 0 {
        seq![]
    } else {
        seq!["failed: "@ + named_text(failures)]
    }
}

/// Why the paired folder could not be listed.
pub open spec fn listing_parts(remote: Remote) -> Seq<Seq<char>> {
    match remote.pairing {
        Some(pairing) => match pairing.files {
            Listing::Failed(reason) => seq![
                "could not list "@ + pairing.dir@ + ": "@ + reason@,
            ],
            _ => seq![],
        },
        None => seq![],
    }
}

/// The transfer.
pub open spec fn transfer_parts(remote: Remote) -> Seq<Seq<char>> {
    match remote.job {
        Some(job) => seq![transfer_notice(job)],
        None => seq![],
    }
}

/// Everything that could not be taken at face value, one part each.
pub open spec fn notice_parts(audit: Audit) -> Seq<Seq<char>> {
    unreadable_parts(text::views(audit.unreadable@)) + output_parts(audit.existing_output as nat)
        + failed_parts(text::views(audit.failures@)) + listing_parts(audit.remote)
        + transfer_parts(audit.remote)
}

/// How many files are not what their extension claims.
pub open spec fn mislabelled_text(count: nat) -> Option<Seq<char>> {
    if count == 0 {
        None
    } else if count == 1 {
        Some("1 file is not the format its extension claims"@)
    } else {
        Some(text::decimal(count) + " files are not the format their extension claims"@)
    }
}

/// What the notices say: the finding that narrows the list to mislabelled files, and a
/// warning.
#[derive(Debug)]
pub struct Notices {
    pub mislabelled: Option<String>,
    pub warning: Option<String>,
}

/// Put `part` behind the others.
fn put(parts: &mut Vec<String>, part: String)
    ensures
        text::views(final(parts)@) == text::views(old(parts)@) + seq![part@],
{
    parts.push(part);
    assert(text::views(parts@) =~= text::views(old(parts)@) + seq![part@]);
}

fn parts_of(audit: &Audit) -> (out: Vec<String>)
    ensures
        text::views(out@) == notice_parts(*audit),
{
    let mut parts: Vec<String> = Vec::new();
    let ghost start = text::views(parts@);
    assert(start =~= seq![]);
    if audit.unreadable.len() > 0 {
        put(
            &mut parts,
            glued("would not decode: ", named(&names_of(&audit.unreadable)).as_str()),
        );
    }
    let ghost first = unreadable_parts(text::views(audit.unreadable@));
    assert(text::views(parts@) =~= first);
    if audit.existing_output > 0 {
        let mut part = scan::OUTPUT_DIR.to_string();
        if audit.existing_output == 1 {
            part.append("/ already holds 1 file");
        } else {
            part.append("/ already holds ");
            part.append(decimal_of(audit.existing_output as u128).as_str());
            part.append(" files");
        }
        put(&mut parts, part);
    }
    let ghost second = output_parts(audit.existing_output as nat);
    assert(text::views(parts@) =~= first + second);
    if audit.failures.len() > 0 {
        put(&mut parts, glued("failed: ", named(&audit.failures).as_str()));
    }
    let ghost third = failed_parts(text::views(audit.failures@));
    assert(text::views(parts@) =~= first + second + third);
    if let Some(pairing) = &audit.remote.pairing {
        if let Listing::Failed(reason) = &pairing.files {
            let mut part = "could not list ".to_string();
            part.append(pairing.dir.as_str());
            part.append(": ");
            part.append(reason.as_str());
            put(&mut parts, part);
        }
    }
    let ghost fourth = listing_parts(audit.remote);
    assert(text::views(parts@) =~= first + second + third + fourth);
    if let Some(job) = &audit.remote.job {
        put(&mut parts, transfer_part(job));
    }
    assert(text::views(parts@) =~= notice_parts(*audit));
    parts
}

/// Everything the scan, the conversion and the pairing could not take at face value, in
/// one line rather than scattered ones.
pub fn notices(audit: &Audit) -> (out: Notices)
    ensures
        text::text_in(out.mislabelled) == mislabelled_text(audit.mislabelled as nat),
        text::text_in(out.warning) == if notice_parts(*audit).len() == 0 {
            None
        } else {
            Some(text::joined(notice_parts(*audit), "  ·  "@))
        },
{
    let parts = parts_of(audit);
    assert(text::views(parts@).len() == parts@.len());
    let mislabelled = if audit.mislabelled == 0 {
        None
    } else if audit.mislabelled == 1 {
        Some("1 file is not the format its extension claims".to_string())
    } else {
        Some(
            glued(
                decimal_of(audit.mislabelled as u128).as_str(),
                " files are not the format their extension claims",
            ),
        )
    };
    let warning = if parts.len() == 0 {
        None
    } else {
        Some(join(&parts, "  ·  "))
    };
    Notices { mislabelled, warning }
}

/// A proportional bar: `filled` of `whole`.
#[derive(Clone, Copy, Debug, PartialEq, Eq, Structural)]
pub struct Meter {
    pub filled: u64,
    pub whole: u64,
}

/// A bar that is full where nothing of `whole` is left, and empty where all of it is.
pub open spec fn gone(left: nat, whole: nat) -> Meter {
    let all = if whole > 1 {
        whole
    } else {
        1
    };
    Meter {
        filled: if left < all {
            (all - left) as u64
        } else {
            0
        },
        whole: all as u64,
    }
}

fn bar(left: u64, whole: u64) -> (out: Meter)
    ensures
        out == gone(left as nat, whole as nat),
{
    let all: u64 = if whole > 1 {
        whole
    } else {
        1
    };
    Meter {
        filled: if left < all {
            all - left
        } else {
            0
        },
        whole: all,
    }
}

/// The numbers of the status bar: a headline, the share it leaves behind, and a sentence
/// of detail.
#[derive(Debug)]
pub struct Told {
    pub headline: String,
    pub tone: Tone,
    pub detail: String,
    /// The bar under the numbers, and its colour, where there is one.
    pub meter: Option<(Meter, Tone)>,
    /// The share saved or added, and whether it was added.
    pub tag: Option<(bool, String)>,
}

/// The status bar: what the folder costs now, what it would cost converted, and the
/// button that does it.
#[derive(Debug)]
pub struct Summary {
    pub told: Told,
    /// The button that takes every tick away, where there are ticks.
    pub clear: Option<String>,
    /// There is output to show.
    pub reveal: bool,
    pub convert: String,
    pub convert_enabled: bool,
    /// The conversion button is drawn quietly.
    pub convert_quiet: bool,
}

/// How far a size moved, in which direction.
pub open spec fn moved_text(
    before: nat,
    after: nat,
    grown: Seq<char>,
    shrunk: Seq<char>,
) -> Seq<char> {
    scan::size_text(apart(before, after)) + if after > before {
        grown
    } else {
        shrunk
    }
}

/// The distance between two sizes.
pub open spec fn apart(a: nat, b: nat) -> nat {
    if a < b {
        (b - a) as nat
    } else {
        (a - b) as nat
    }
}

/// The distance between two sizes.
pub fn distance(a: u64, b: u64) -> (out: u64)
    ensures
        out == apart(a as nat, b as nat),
{
    if a < b {
        b - a
    } else {
        a - b
    }
}

/// The tone of a change.
pub open spec fn change_tone(before: nat, after: nat) -> Tone {
    if after > before {
        Tone::Yellow
    } else {
        Tone::Green
    }
}

/// The share a size changed by, with its sign.
pub open spec fn tag_text(before: nat, after: nat) -> Seq<char> {
    (if after > before {
        "+"@
    } else {
        "−"@
    }) + share_text(apart(before, after), before, Precision::Single) + "%"@
}

fn tag(before: u64, after: u64) -> (out: String)
    ensures
        out@ == tag_text(before as nat, after as nat),
{
    let mut out = (if after > before {
        "+"
    } else {
        "−"
    }).to_string();
    out.append(share_of(distance(before, after), before, Precision::Single).as_str());
    out.append("%");
    out
}

/// The container and the quality a conversion writes.
pub open spec fn setting_text(format: Format, quality: Quality) -> Seq<char> {
    caps_text(format) + " "@ + quality.label_text()
}

/// The container and the quality a conversion writes.
pub fn setting(format: Format, quality: Quality) -> (out: String)
    ensures
        out@ == setting_text(format, quality),
{
    let mut out = caps(format).to_string();
    out.append(" ");
    out.append(quality.label().as_str());
    out
}

/// The bytes of the sources that were converted, and of what they became.
pub open spec fn converted_bytes(audit: Audit) -> (nat, nat) {
    let (before, after) = audit::totals(
        audit.entries@,
        audit.results@,
        audit.entries@.len() as int,
    );
    (before, audit::capped(after))
}

/// The bytes a conversion would read.
pub open spec fn source_bytes(audit: Audit) -> nat {
    estimate::bytes_of(audit.entries@, audit.targeted(), 0, audit.targeted().len() as int)
}

/// The headline, its tone, the detail, the bar and the tag of the status bar: while a
/// conversion runs, once there are results, once there is an estimate, and before.
pub open spec fn is_told(audit: Audit, told: Told) -> bool {
    if audit.converting {
        let done = audit.results@.len() + audit.failures@.len();
        let total = match audit.active_target_count {
            Some(count) => count as nat,
            None => audit.targeted().len(),
        };
        &&& told.headline@ == text::decimal(done) + " of "@ + text::decimal(total)
        &&& told.tone == Tone::Foreground
        &&& told.detail@ == "Converting to "@ + setting_text(audit.format, audit.quality)
            + "…"@
        &&& told.meter == Some(
            (gone(audit::capped(done), total), Tone::Primary),
        )
        &&& told.tag is None
    } else if audit.results@.len() > 0 {
        let (before, after) = converted_bytes(audit);
        &&& told.headline@ == moved_text(before, after, " larger"@, " saved"@)
        &&& told.tone == change_tone(before, after)
        &&& told.detail@ == text::decimal(audit.results@.len()) + " converted · "@
            + scan::size_text(before) + " → "@ + scan::size_text(after)
        &&& told.meter == Some((gone(after, before), change_tone(before, after)))
        &&& told.tag matches Some((grew, share))
        &&& grew == (after > before)
        &&& share@ == tag_text(before, after)
    } else {
        let before = source_bytes(audit);
        match audit.estimate {
            Some((projected, sampled)) => {
                let after = projected as nat;
                &&& told.headline@ == "≈"@ + moved_text(before, after, " to grow"@, " to save"@)
                &&& told.tone == change_tone(before, after)
                &&& told.detail@ == scan::size_text(before) + " now → ≈"@ + scan::size_text(
                    after,
                ) + " as "@ + setting_text(audit.format, audit.quality) + " · sampled "@
                    + text::decimal(sampled as nat)
                &&& told.meter == Some((gone(after, before), change_tone(before, after)))
                &&& told.tag matches Some((grew, share))
                &&& grew == (after > before)
                &&& share@ == tag_text(before, after)
            },
            None => {
                &&& told.headline@ == "Sizing it up…"@
                &&& told.tone == Tone::Muted
                &&& told.detail@ == scan::size_text(before) + " on disk"@
                &&& told.meter is None
                &&& told.tag is None
            },
        }
    }
}

/// The buttons of the status bar.
pub open spec fn is_offered(audit: Audit, summary: Summary) -> bool {
    let targets = audit.targeted().len();
    &&& text::text_in(summary.clear) == if audit.selected@.len() > 0 && !audit.converting {
        Some("Clear "@ + text::decimal(audit.selected@.len()))
    } else {
        None
    }
    &&& summary.reveal == (audit.results@.len() > 0 && !audit.converting)
    &&& summary.convert@ == if audit.converting {
        "Converting…"@
    } else if audit.selected@.len() == 0 {
        "Convert all to "@ + caps_text(audit.format)
    } else {
        "Convert "@ + text::decimal(targets) + " to "@ + caps_text(audit.format)
    }
    &&& summary.convert_enabled == (!audit.converting && audit.scanning is None && targets > 0)
    &&& summary.convert_quiet == (audit.converting || targets == 0)
}

fn tone_of(before: u64, after: u64) -> (out: Tone)
    ensures
        out == change_tone(before as nat, after as nat),
{
    if after > before {
        Tone::Yellow
    } else {
        Tone::Green
    }
}

fn tell(audit: &Audit, targets: usize) -> (out: Told)
    requires
        audit.sound(),
        targets == audit.targeted().len(),
    ensures
        is_told(*audit, out),
{
    if audit.converting {
        let done: u128 = audit.results.len() as u128 + audit.failures.len() as u128;
        let total: usize = match audit.active_target_count {
            Some(count) => count,
            None => targets,
        };
        let mut headline = decimal_of(done);
        headline.append(" of ");
        headline.append(decimal_of(total as u128).as_str());
        let mut detail = "Converting to ".to_string();
        detail.append(setting(audit.format, audit.quality).as_str());
        detail.append("…");
        let left: u64 = if done > u64::MAX as u128 {
            u64::MAX
        } else {
            done as u64
        };
        return Told {
            headline,
            tone: Tone::Foreground,
            detail,
            meter: Some((bar(left, total as u64), Tone::Primary)),
            tag: None,
        };
    }
    if audit.results.len() > 0 {
        let (before, after) = audit.converted_totals();
        let mut headline = format_bytes(distance(before, after));
        headline.append(
            if after > before {
                " larger"
            } else {
                " saved"
            },
        );
        let mut detail = decimal_of(audit.results.len() as u128);
        detail.append(" converted · ");
        detail.append(format_bytes(before).as_str());
        detail.append(" → ");
        detail.append(format_bytes(after).as_str());
        let tone = tone_of(before, after);
        return Told {
            headline,
            tone,
            detail,
            meter: Some((bar(after, before), tone)),
            tag: Some((after > before, tag(before, after))),
        };
    }
    let before: u64 = audit.target_bytes();
    match audit.estimate {
        Some((after, sampled)) => {
            let mut moved = format_bytes(distance(before, after));
            moved.append(
                if after > before {
                    " to grow"
                } else {
                    " to save"
                },
            );
            let headline = glued("≈", moved.as_str());
            let mut detail = format_bytes(before);
            detail.append(" now → ≈");
            detail.append(format_bytes(after).as_str());
            detail.append(" as ");
            detail.append(setting(audit.format, audit.quality).as_str());
            detail.append(" · sampled ");
            detail.append(decimal_of(sampled as u128).as_str());
            let tone = tone_of(before, after);
            Told {
                headline,
                tone,
                detail,
                meter: Some((bar(after, before), tone)),
                tag: Some((after > before, tag(before, after))),
            }
        },
        None => Told {
            headline: "Sizing it up…".to_string(),
            tone: Tone::Muted,
            detail: glued(format_bytes(before).as_str(), " on disk"),
            meter: None,
            tag: None,
        },
    }
}

/// The payoff, said once: what the folder costs now, what it would cost converted, and
/// the button that does it.
pub fn summary(audit: &Audit) -> (out: Summary)
    requires
        audit.sound(),
    ensures
        is_told(*audit, out.told),
        is_offered(*audit, out),
{
    let targets: usize = audit.target_count();
    let told = tell(audit, targets);
    let ticked: usize = audit.selected.len();
    let clear = if ticked > 0 && !audit.converting {
        Some(glued("Clear ", decimal_of(ticked as u128).as_str()))
    } else {
        None
    };
    let convert = if audit.converting {
        "Converting…".to_string()
    } else if ticked == 0 {
        glued("Convert all to ", caps(audit.format))
    } else {
        let mut label = "Convert ".to_string();
        label.append(decimal_of(targets as u128).as_str());
        label.append(" to ");
        label.append(caps(audit.format));
        label
    };
    Summary {
        told,
        clear,
        reveal: audit.results.len() > 0 && !audit.converting,
        convert,
        convert_enabled: !audit.converting && audit.scanning.is_none() && targets > 0,
        convert_quiet: audit.converting || targets == 0,
    }
}

/// A share grows with its part. All of a whole is 100 percent, half of it 50 and a quarter
/// 25, and nothing is none, whatever the whole.
pub proof fn law_shares_are_percent(part: nat, more: nat, whole: nat, precision: Precision)
    requires
        part <= more,
    ensures
        !number::below(share(more, whole, precision), share(part, whole, precision)),
        part > 0 ==> share_text(part, part, precision) == text::decimal(100),
        part > 0 ==> share_text(part, 2 * part, precision) == text::decimal(50),
        part > 0 ==> share_text(part, 4 * part, precision) == text::decimal(25),
        share_text(0, whole, precision) == text::decimal(0),
{
    let all = if whole > 1 {
        whole
    } else {
        1
    };
    let hundred = number::nearest(100, 1, precision);
    number::law_ratios_go_with_their_counts(part, all, more, all, precision);
    number::lemma_product_grows(
        scan::ratio(part, all, precision),
        scan::ratio(more, all, precision),
        hundred,
        precision,
    );
    vstd::arithmetic::power2::lemma2_to64();
    number::lemma_nearest_fills(100, 1, precision);
    number::lemma_nearest_fills(50, 1, precision);
    number::lemma_nearest_fills(25, 1, precision);
    number::lemma_nearest_shifts(50, 1, 1, precision);
    number::lemma_nearest_shifts(25, 1, 2, precision);
    number::lemma_times_a_power(hundred, 0, precision);
    number::lemma_times_a_power(hundred, -1, precision);
    number::lemma_times_a_power(hundred, -2, precision);
    number::law_whole_numbers_read_as_they_are(100, precision);
    number::law_whole_numbers_read_as_they_are(50, precision);
    number::law_whole_numbers_read_as_they_are(25, precision);
    number::law_whole_numbers_read_as_they_are(0, precision);
    assert(0 * hundred.0 == 0) by (nonlinear_arith);
    if part > 0 {
        let x = number::nearest(part, 1, precision);
        number::lemma_nearest_fills(part, 1, precision);
        number::lemma_nearest_shifts(part, 1, 1, precision);
        number::lemma_nearest_shifts(part, 1, 2, precision);
        assert(part * vstd::arithmetic::power2::pow2(1) == 2 * part);
        assert(part * vstd::arithmetic::power2::pow2(2) == 4 * part);
        number::lemma_over_itself_shifted(x, 0, precision);
        number::lemma_over_itself_shifted(x, 1, precision);
        number::lemma_over_itself_shifted(x, 2, precision);
    }
}

/// The bar is as full as the share of the whole that is gone: what is left and what is
/// filled make the whole, as long as no more is left than there was.
pub proof fn law_the_bar_shows_what_is_gone(left: nat, whole: nat)
    requires
        0 < whole <= u64::MAX,
    ensures
        gone(left, whole).whole == whole,
        left <= whole ==> gone(left, whole).filled + left == whole,
        left >= whole ==> gone(left, whole).filled == 0,
{
}

/// How far two sizes are apart is the same from both sides, and brings the smaller to the
/// larger. A size that grew is warned of, and no other.
pub proof fn law_sizes_are_as_far_apart_from_both_sides(a: nat, b: nat)
    ensures
        apart(a, b) == apart(b, a),
        a <= b ==> a + apart(a, b) == b,
        change_tone(a, b) is Yellow <==> b > a,
        change_tone(a, b) is Green <==> b <= a,
{
}

/// Up to three names are all given, and of more the first three, with the number of the
/// others: what is named and what is counted make up the list.
pub proof fn law_a_few_names_and_a_count(names: Seq<Seq<char>>)
    ensures
        names.len() <= 3 ==> named_text(names) == text::joined(names, ", "@),
        names.len() > 3 ==> exists|others: nat|
            {
                &&& 3 + others == names.len()
                &&& named_text(names) == names[0] + ", "@ + names[1] + ", "@ + names[2] + " and "@
                    + #[trigger] text::decimal(others) + " more"@
            },
{
    if names.len() > 3 {
        let few = names.take(3);
        assert(few.drop_last() =~= names.take(2));
        assert(names.take(2).drop_last() =~= names.take(1));
        reveal_with_fuel(text::joined, 4);
        let others = (names.len() - 3) as nat;
        assert(text::joined(few, ", "@) =~= names[0] + ", "@ + names[1] + ", "@ + names[2]);
        assert(named_text(names) =~= names[0] + ", "@ + names[1] + ", "@ + names[2] + " and "@
            + text::decimal(others) + " more"@);
    }
}

/// The status bar says what happened. While a conversion runs it counts the files that are
/// done, failed ones too, of those it set out with. Once there are results it says by how
/// much they are smaller or larger than their sources, and warns just where they grew.
pub proof fn law_the_status_says_what_happened(audit: Audit, told: Told)
    requires
        is_told(audit, told),
    ensures
        audit.converting && audit.active_target_count is Some ==> {
            &&& told.headline@ == text::decimal(audit.results@.len() + audit.failures@.len())
                + " of "@ + text::decimal(audit.active_target_count->0 as nat)
            &&& told.tag is None
        },
        !audit.converting && audit.results@.len() > 0 ==> {
            let n = audit.entries@.len() as int;
            let (before, sum) = audit::totals(audit.entries@, audit.results@, n);
            let after = if sum <= u64::MAX {
                sum
            } else {
                u64::MAX as nat
            };
            &&& before >= after ==> told.headline@ == scan::size_text((before - after) as nat)
                + " saved"@
            &&& before < after ==> told.headline@ == scan::size_text((after - before) as nat)
                + " larger"@
            &&& told.tone is Yellow <==> after > before
            &&& told.tag matches Some((grew, _)) && grew == (after > before)
        },
        !audit.converting && audit.results@.len() == 0 ==> (told.tag is Some
            <==> audit.estimate is Some),
        audit.estimate matches Some((after, _)) ==> !audit.converting && audit.results@.len() == 0
            ==> (told.tone is Yellow <==> after > source_bytes(audit)),
{
}

/// A conversion is offered just where one could start, and says how many files it is of.
pub proof fn law_a_conversion_is_offered_where_one_could_start(audit: Audit, summary: Summary)
    requires
        is_offered(audit, summary),
    ensures
        summary.convert_enabled <==> !audit.converting && audit.scanning is None
            && audit.targeted().len() > 0,
        summary.clear is Some <==> audit.selected@.len() > 0 && !audit.converting,
        summary.reveal ==> audit.results@.len() > 0,
{
}

/// Each thing that could not be taken at face value is told in one part, and where there is
/// none nothing is told.
pub proof fn law_notices_are_told_one_by_one(audit: Audit)
    ensures
        ({
            let told = |there: bool|
                if there {
                    1int
                } else {
                    0int
                };
            let failed = audit.remote.pairing is Some && audit.remote.pairing->0.files is Failed;
            notice_parts(audit).len() == told(audit.unreadable@.len() > 0) + told(
                audit.existing_output > 0,
            ) + told(audit.failures@.len() > 0) + told(failed) + told(audit.remote.job is Some)
        }),
{
}

/// The line of numbers begins with how many images are shown; camera raw files are spoken of
/// just where some were passed over.
pub proof fn law_numbers_say_what_is_shown(shown: nat, all: nat, bytes: nat, skipped: nat)
    ensures
        text::decimal(shown).is_prefix_of(images_text(shown, all, bytes)),
        scan::size_text(bytes).is_suffix_of(images_text(shown, all, bytes)),
        shown != all ==> (text::decimal(shown) + " of "@ + text::decimal(all)).is_prefix_of(
            images_text(shown, all, bytes),
        ),
        raw_text(skipped).len() == 0 <==> skipped == 0,
        mislabelled_text(skipped) is None <==> skipped == 0,
{
    reveal_strlit(" · ");
    let said = images_text(shown, all, bytes);
    let (count, size) = (text::decimal(shown), scan::size_text(bytes));
    assert(said.take(count.len() as int) =~= count);
    assert(said.skip(said.len() - size.len()) =~= size);
    if shown != all {
        let lead = count + " of "@ + text::decimal(all);
        assert(said.take(lead.len() as int) =~= lead);
    }
}

/// What is said of a pairing begins with what is to be pushed and ends in what is to be
/// pulled, once the two sides were counted.
pub proof fn law_a_pairing_says_what_is_to_move(remote: Remote)
    ensures
        remote.pairing is None ==> pairing_text(remote).len() == 0,
        remote.counts matches Some((to_push, _, to_pull)) ==> remote.pairing is Some ==> {
            &&& (" · Sirv: "@ + text::decimal(to_push as nat) + " to push"@).is_prefix_of(
                pairing_text(remote),
            )
            &&& (text::decimal(to_pull as nat) + " to pull"@).is_suffix_of(pairing_text(remote))
        },
{
    if remote.counts is Some && remote.pairing is Some {
        reveal_strlit(" to push");
        reveal_strlit(" to push · ");
        let (to_push, _, to_pull) = remote.counts->0;
        let said = pairing_text(remote);
        let lead = " · Sirv: "@ + text::decimal(to_push as nat) + " to push"@;
        let end = text::decimal(to_pull as nat) + " to pull"@;
        assert(said.take(lead.len() as int) =~= lead);
        assert(said.skip(said.len() - end.len()) =~= end);
    }
}

/// A transfer that is over names everything that failed, and a notice a few of them; one
/// that runs names nothing yet.
pub proof fn law_a_finished_transfer_names_its_failures(job: Job)
    ensures
        job.finished && job.failures@.len() > 0 ==> text::joined(
            text::views(job.failures@),
            ", "@,
        ).is_suffix_of(transfer_text(job)),
        0 < job.failures@.len() <= NAMED ==> text::joined(
            text::views(job.failures@),
            ", "@,
        ).is_suffix_of(transfer_notice(job)),
        job.finished && job.failures@.len() == 0 ==> text::decimal(
            job.total as nat,
        ).is_suffix_of(transfer_text(job)),
        job.finished && job.kind is Pull ==> "Pulled "@.is_prefix_of(transfer_text(job)),
        job.finished && job.kind is Push ==> "Pushed "@.is_prefix_of(transfer_text(job)),
        !job.finished && job.kind is Pull ==> "Pulling "@.is_prefix_of(transfer_text(job)),
        !job.finished && job.kind is Push ==> "Pushing "@.is_prefix_of(transfer_text(job)),
{
    let (said, notice) = (transfer_text(job), transfer_notice(job));
    let failures = text::views(job.failures@);
    let names = text::joined(failures, ", "@);
    let total = text::decimal(job.total as nat);
    assert(failures.len() == job.failures@.len());
    if job.finished && failures.len() > 0 {
        assert(said.skip(said.len() - names.len()) =~= names);
    }
    if 0 < failures.len() <= NAMED {
        assert(notice.skip(notice.len() - names.len()) =~= names);
    }
    if job.finished && failures.len() == 0 {
        assert(said.skip(said.len() - total.len()) =~= total);
    }
    assert(job.finished && job.kind is Pull ==> said.take("Pulled "@.len() as int) =~= "Pulled "@);
    assert(job.finished && job.kind is Push ==> said.take("Pushed "@.len() as int) =~= "Pushed "@);
    assert(!job.finished && job.kind is Pull ==> said.take("Pulling "@.len() as int)
        =~= "Pulling "@);
    assert(!job.finished && job.kind is Push ==> said.take("Pushing "@.len() as int)
        =~= "Pushing "@);
}

/// The title of the window begins with the name of the folder and ends in the program's.
pub proof fn law_a_title_names_folder_and_program(root: Seq<char>)
    ensures
        "ImageGuide"@.is_suffix_of(title_text(root)),
        paths::last_name(root) matches Some(name) ==> name.is_prefix_of(title_text(root)),
{
    reveal_strlit("ImageGuide");
    reveal_strlit(" — ImageGuide");
    let title = title_text(root);
    assert(title.skip(title.len() - 10) =~= "ImageGuide"@);
    if let Some(name) = paths::last_name(root) {
        assert(title.take(name.len() as int) =~= name);
    }
}

/// With nothing ticked a conversion reads as much as the list weighs.
pub proof fn law_a_whole_list_weighs_what_it_shows(audit: Audit)
    requires
        audit.sound(),
        audit.selected@ == Set::<usize>::empty(),
    ensures
        source_bytes(audit) == audit.visible_bytes,
{
    audit::law_all_and_nothing_ticked_convert_the_list(audit.visible@, audit.selected@);
}

/// Files that end in a name are all named, in their order.
pub proof fn law_files_are_named_in_order(paths: Seq<Seq<char>>, n: int, i: int)
    requires
        0 <= i < n <= paths.len(),
        forall|k: int| 0 <= k < n ==> paths::last_name(#[trigger] paths[k]) is Some,
    ensures
        file_names(paths, n).len() == n,
        Some(file_names(paths, n)[i]) == paths::last_name(paths[i]),
    decreases n,
{
    if n == 1 {
        assert(file_names(paths, 0).len() == 0);
    }
    if i < n - 1 {
        law_files_are_named_in_order(paths, n - 1, i);
    } else if n > 1 {
        law_files_are_named_in_order(paths, n - 1, 0);
    }
    assert(paths::last_name(paths[n - 1]) is Some);
}

/// A count is said as it is, of one file as of many.
pub proof fn law_counts_are_said_as_they_are(count: nat)
    requires
        count > 0,
    ensures
        mislabelled_text(count) is Some,
        text::decimal(count).is_prefix_of(mislabelled_text(count)->0),
        output_parts(count).len() == 1,
        (scan::OUTPUT_DIR@ + "/ already holds "@ + text::decimal(count)).is_prefix_of(
            output_parts(count)[0],
        ),
{
    reveal_strlit("1 file is not the format its extension claims");
    reveal_strlit("/ already holds 1 file");
    reveal_strlit("/ already holds ");
    text::law_decimals_read_back(1);
    reveal_with_fuel(text::decimal, 2);
    assert(text::decimal(1) =~= seq!['1']);
    let said = mislabelled_text(count)->0;
    let held = output_parts(count)[0];
    let lead = scan::OUTPUT_DIR@ + "/ already holds "@ + text::decimal(count);
    assert(said.subrange(0, text::decimal(count).len() as int) =~= text::decimal(count));
    assert(held.subrange(0, lead.len() as int) =~= lead);
}

} // verus!
