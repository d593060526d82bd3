//! The command line: `imageguide <folder> [--convert] [--quality N | --lossless]`.

use crate::convert;
use crate::convert::{Format, MaxEdge, Quality};
use crate::picture::QUALITY_ONE;
use crate::settings;
use crate::text;
use crate::text::{chars_of, same};
use vstd::prelude::*;

verus! {

/// What the program was asked to do.
#[derive(Debug)]
pub struct Args {
    /// Nothing when launched with no path: the window opens on its empty state.
    pub root: Option<String>,
    pub convert: bool,
    pub format: Format,
    pub quality: Quality,
    pub max_edge: MaxEdge,
    pub grid: bool,
}

/// The same, with the path as characters.
pub struct Asked {
    pub root: Option<Seq<char>>,
    pub convert: bool,
    pub format: Format,
    pub quality: Quality,
    pub max_edge: MaxEdge,
    pub grid: bool,
}

impl View for Args {
    type V = Asked;

    open spec fn view(&self) -> Asked {
        Asked {
            root: text::text_in(self.root),
            convert: self.convert,
            format: self.format,
            quality: self.quality,
            max_edge: self.max_edge,
            grid: self.grid,
        }
    }
}

/// The value of a decimal digit.
pub open spec fn digit_value(c: char) -> nat {
    (c as u32 - '0' as u32) as nat
}

/// The number that decimal digits stand for.
pub open spec fn digits_value(digits: Seq<char>) -> nat
    decreases digits.len(),
{
    if digits.len() == 0 {
        0
    } else {
        10 * digits_value(digits.drop_last()) + digit_value(digits.last())
    }
}

/// `text` without the plus in front of it.
pub open spec fn positive(text: Seq<char>) -> Seq<char> {
    if text.len() > 0 && text[0] == '+' {
        text.skip(1)
    } else {
        text
    }
}

/// The whole number a text stands for, where it fits in thirty-two bits: digits, with a
/// plus in front or without.
pub open spec fn edge_in(text: Seq<char>) -> Option<u32> {
    let digits = positive(text);
    if digits.len() > 0 && settings::all_digits(digits) && digits_value(digits) <= u32::MAX {
        Some(digits_value(digits) as u32)
    } else {
        None
    }
}

/// More digits stand for a number at least as large.
proof fn lemma_more_digits(digits: Seq<char>, n: int)
    requires
        0 <= n <= digits.len(),
    ensures
        digits_value(digits.take(n)) <= digits_value(digits),
    decreases digits.len() - n,
{
    if n < digits.len() {
        lemma_more_digits(digits, n + 1);
        assert(digits.take(n + 1).drop_last() =~= digits.take(n));
    } else {
        assert(digits.take(n) =~= digits);
    }
}

/// The whole number a text stands for.
pub fn parse_edge(text: &str) -> (out: Option<u32>)
    ensures
        out == edge_in(text@),
{
    let chars = chars_of(text);
    let n: usize = chars.len();
    let from: usize = if n > 0 && chars[0] == '+' {
        1
    } else {
        0
    };
    let ghost digits = positive(text@);
    assert(digits =~= text@.skip(from as int));
    if from >= n {
        return None;
    }
    let mut value: u64 = 0;
    let mut i: usize = from;
    assert(digits.take(0) =~= seq![]);
    while i < n
        invariant
            from <= i <= n == chars@.len(),
            chars@ == text@,
            digits == text@.skip(from as int),
            digits == positive(text@),
            forall|j: int| 0 <= j < i - from ==> settings::is_digit(#[trigger] digits[j]),
            value == digits_value(digits.take(i - from)) <= u32::MAX,
        decreases n - i,
    {
        let c = chars[i];
        assert(digits[i - from] == c);
        if !('0' <= c && c <= '9') {
            assert(!settings::is_digit(digits[i - from]));
            return None;
        }
        let next: u64 = 10 * value + (c as u32 as u64 - '0' as u32 as u64);
        proof {
            assert(digits.take(i - from + 1).drop_last() =~= digits.take(i - from));
            lemma_more_digits(digits, i - from + 1);
        }
        if next > u32::MAX as u64 {
            return None;
        }
        value = next;
        i += 1;
    }
    assert(digits.take(n - from) =~= digits);
    Some(value as u32)
}

/// What is asked for before anything is read: everything at its full size, as WebP at
/// quality 80.
pub open spec fn unasked() -> Asked {
    Asked {
        root: None,
        convert: false,
        format: Format::WebP,
        quality: Quality(Some((80 * QUALITY_ONE) as u32)),
        max_edge: MaxEdge(None),
        grid: false,
    }
}

/// What is asked for once the arguments from `at` on are read, too. An option that needs
/// a value takes the argument behind it, and does nothing where that is no number; an
/// argument that is no option is the path.
pub open spec fn asked_from(
    arguments: Seq<Seq<char>>,
    readings: Seq<Option<i64>>,
    at: int,
    asked: Asked,
) -> Asked
    decreases arguments.len() + 1 - at,
{
    if at >= arguments.len() {
        asked
    } else {
        let argument = arguments[at];
        if argument == "--max-edge"@ {
            asked_from(
                arguments,
                readings,
                at + 2,
                if at + 1 < arguments.len() && edge_in(arguments[at + 1]) is Some {
                    Asked { max_edge: MaxEdge(edge_in(arguments[at + 1])), ..asked }
                } else {
                    asked
                },
            )
        } else if argument == "--quality"@ {
            asked_from(
                arguments,
                readings,
                at + 2,
                if at + 1 < arguments.len() && readings[at + 1] is Some {
                    Asked {
                        quality: Quality(Some(convert::clamped(readings[at + 1]->0))),
                        ..asked
                    }
                } else {
                    asked
                },
            )
        } else {
            asked_from(
                arguments,
                readings,
                at + 1,
                if argument == "--convert"@ {
                    Asked { convert: true, ..asked }
                } else if argument == "--avif"@ {
                    Asked { format: Format::Avif, ..asked }
                } else if argument == "--webp"@ {
                    Asked { format: Format::WebP, ..asked }
                } else if argument == "--grid"@ {
                    Asked { grid: true, ..asked }
                } else if argument == "--lossless"@ {
                    Asked { quality: Quality(None), ..asked }
                } else {
                    Asked { root: Some(argument), ..asked }
                },
            )
        }
    }
}

/// Read the arguments behind the program's name. `readings` holds the value of each
/// argument that reads as a number, in units of `1 / QUALITY_ONE`.
pub fn parse_args(arguments: &Vec<String>, readings: &Vec<Option<i64>>) -> (out: Args)
    requires
        readings@.len() == arguments@.len(),
    ensures
        out@ == asked_from(text::views(arguments@), readings@, 0, unasked()),
        out.quality.in_range(),
{
    let n: usize = arguments.len();
    let ghost all = text::views(arguments@);
    let mut args = Args {
        root: None,
        convert: false,
        format: Format::WebP,
        quality: Quality(Some(80 * QUALITY_ONE)),
        max_edge: MaxEdge(None),
        grid: false,
    };
    let mut i: usize = 0;
    while i < n
        invariant
            n == arguments@.len() == readings@.len(),
            all == text::views(arguments@),
            asked_from(all, readings@, i as int, args@) == asked_from(
                all,
                readings@,
                0,
                unasked(),
            ),
            args.quality.in_range(),
        decreases n - i,
    {
        let argument = arguments[i].as_str();
        assert(all[i as int] == argument@);
        proof {
            reveal_with_fuel(asked_from, 2);
            if i + 1 < n {
                assert(all[i + 1] == arguments@[i + 1]@);
            }
        }
        if same(argument, "--max-edge") {
            if n - i > 1 {
                if let Some(edge) = parse_edge(arguments[i + 1].as_str()) {
                    args.max_edge = MaxEdge(Some(edge));
                }
                i += 1;
            }
        } else if same(argument, "--quality") {
            if n - i > 1 {
                if let Some(units) = readings[i + 1] {
                    args.quality = Quality::lossy(units);
                }
                i += 1;
            }
        } else if same(argument, "--convert") {
            args.convert = true;
        } else if same(argument, "--avif") {
            args.format = Format::Avif;
        } else if same(argument, "--webp") {
            args.format = Format::WebP;
        } else if same(argument, "--grid") {
            args.grid = true;
        } else if same(argument, "--lossless") {
            args.quality = Quality::lossless();
        } else {
            args.root = Some(argument.to_string());
        }
        i += 1;
    }
    args
}

/// Where a run begins.
#[derive(Debug)]
pub enum Start {
    /// On this path.
    Open(String),
    /// In an empty window.
    Empty,
    /// Nowhere: a conversion without a window needs a folder.
    NeedsFolder,
}

/// Where a run begins: on the path that was given, else where the last one left off,
/// unless there is no such folder any more or the run is to convert.
pub fn start(args: &Args, remembered: Option<&str>, is_folder: bool) -> (out: Start)
    ensures
        match args.root {
            Some(root) => {
                &&& out matches Start::Open(path)
                &&& path@ == root@
            },
            None => if args.convert {
                out is NeedsFolder
            } else if remembered is Some && is_folder {
                &&& out matches Start::Open(path)
                &&& path@ == remembered->0@
            } else {
                out is Empty
            },
        },
{
    match &args.root {
        Some(root) => Start::Open(root.clone()),
        None => {
            if args.convert {
                return Start::NeedsFolder;
            }
            match remembered {
                Some(folder) => if is_folder {
                    Start::Open(folder.to_string())
                } else {
                    Start::Empty
                },
                None => Start::Empty,
            }
        },
    }
}

/// Why a run does not begin.
#[derive(Clone, Copy, Debug, PartialEq, Eq, Structural)]
pub enum Refusal {
    NeedsFolder,
    NoSuchPath,
    NotAnImage,
}

/// What is said to a run that does not begin, of the path it was to begin on.
pub open spec fn refusal_text(refusal: Refusal, path: Seq<char>) -> Seq<char> {
    match refusal {
        Refusal::NeedsFolder => "imageguide: --convert needs a folder"@,
        Refusal::NoSuchPath => "imageguide: "@ + path + " is not a file or folder"@,
        Refusal::NotAnImage => "imageguide: "@ + path + " is not an image"@,
    }
}

/// What is said to a run that does not begin.
pub fn refusal_line(refusal: Refusal, path: &str) -> (out: String)
    ensures
        out@ == refusal_text(refusal, path@),
{
    let mut out = "imageguide: ".to_string();
    match refusal {
        Refusal::NeedsFolder => "imageguide: --convert needs a folder".to_string(),
        Refusal::NoSuchPath => {
            out.append(path);
            out.append(" is not a file or folder");
            out
        },
        Refusal::NotAnImage => {
            out.append(path);
            out.append(" is not an image");
            out
        },
    }
}

/// The arguments are read to the end: no option that needs a value stands last.
pub open spec fn is_complete(arguments: Seq<Seq<char>>, at: int) -> bool
    decreases arguments.len() + 1 - at,
{
    if at >= arguments.len() {
        at == arguments.len()
    } else if arguments[at] == "--max-edge"@ || arguments[at] == "--quality"@ {
        is_complete(arguments, at + 2)
    } else {
        is_complete(arguments, at + 1)
    }
}

/// Arguments are read one after the other: those behind go on from what those in front
/// asked for.
proof fn lemma_read_on(
    front: Seq<Seq<char>>,
    back: Seq<Seq<char>>,
    before: Seq<Option<i64>>,
    behind: Seq<Option<i64>>,
    at: int,
    asked: Asked,
)
    requires
        0 <= at <= front.len(),
        before.len() == front.len(),
        behind.len() == back.len(),
        is_complete(front, at),
    ensures
        asked_from(front + back, before + behind, at, asked) == asked_from(
            back,
            behind,
            0,
            asked_from(front, before, at, asked),
        ),
    decreases front.len() - at,
{
    let (all, values) = (front + back, before + behind);
    if at == front.len() {
        lemma_read_behind(front, back, before, behind, 0, asked);
    } else {
        assert(all[at] == front[at]);
        if front[at] == "--max-edge"@ || front[at] == "--quality"@ {
            lemma_complete_stays(front, at + 2);
            assert(at + 2 <= front.len());
            assert(all[at + 1] == front[at + 1] && values[at + 1] == before[at + 1]);
            let next = if front[at] == "--max-edge"@ {
                if edge_in(front[at + 1]) is Some {
                    Asked { max_edge: MaxEdge(edge_in(front[at + 1])), ..asked }
                } else {
                    asked
                }
            } else if before[at + 1] is Some {
                Asked { quality: Quality(Some(convert::clamped(before[at + 1]->0))), ..asked }
            } else {
                asked
            };
            lemma_read_on(front, back, before, behind, at + 2, next);
        } else {
            let argument = front[at];
            let next = if argument == "--convert"@ {
                Asked { convert: true, ..asked }
            } else if argument == "--avif"@ {
                Asked { format: Format::Avif, ..asked }
            } else if argument == "--webp"@ {
                Asked { format: Format::WebP, ..asked }
            } else if argument == "--grid"@ {
                Asked { grid: true, ..asked }
            } else if argument == "--lossless"@ {
                Asked { quality: Quality(None), ..asked }
            } else {
                Asked { root: Some(argument), ..asked }
            };
            lemma_read_on(front, back, before, behind, at + 1, next);
        }
    }
}

proof fn lemma_complete_stays(arguments: Seq<Seq<char>>, at: int)
    requires
        is_complete(arguments, at),
    ensures
        at <= arguments.len(),
{
}

/// What stands in front of the arguments being read does not matter.
proof fn lemma_read_behind(
    front: Seq<Seq<char>>,
    back: Seq<Seq<char>>,
    before: Seq<Option<i64>>,
    behind: Seq<Option<i64>>,
    at: int,
    asked: Asked,
)
    requires
        0 <= at,
        before.len() == front.len(),
        behind.len() == back.len(),
    ensures
        asked_from(front + back, before + behind, front.len() + at, asked) == asked_from(
            back,
            behind,
            at,
            asked,
        ),
    decreases back.len() + 1 - at,
{
    let (all, values) = (front + back, before + behind);
    let here = front.len() + at;
    if at < back.len() {
        let argument = back[at];
        assert(all[here] == argument);
        if argument == "--max-edge"@ || argument == "--quality"@ {
            if at + 1 < back.len() {
                assert(all[here + 1] == back[at + 1] && values[here + 1] == behind[at + 1]);
            }
            let next = if at + 1 >= back.len() {
                asked
            } else if argument == "--max-edge"@ {
                if edge_in(back[at + 1]) is Some {
                    Asked { max_edge: MaxEdge(edge_in(back[at + 1])), ..asked }
                } else {
                    asked
                }
            } else if behind[at + 1] is Some {
                Asked { quality: Quality(Some(convert::clamped(behind[at + 1]->0))), ..asked }
            } else {
                asked
            };
            lemma_read_behind(front, back, before, behind, at + 2, next);
        } else {
            let next = if argument == "--convert"@ {
                Asked { convert: true, ..asked }
            } else if argument == "--avif"@ {
                Asked { format: Format::Avif, ..asked }
            } else if argument == "--webp"@ {
                Asked { format: Format::WebP, ..asked }
            } else if argument == "--grid"@ {
                Asked { grid: true, ..asked }
            } else if argument == "--lossless"@ {
                Asked { quality: Quality(None), ..asked }
            } else {
                Asked { root: Some(argument), ..asked }
            };
            lemma_read_behind(front, back, before, behind, at + 1, next);
        }
    }
}

/// One more argument changes just what it stands for, whatever was read before it: so the
/// last of several that say the same thing wins. One that is no option is the folder, and an
/// option whose value is missing changes nothing.
pub proof fn law_each_argument_changes_what_it_stands_for(
    arguments: Seq<Seq<char>>,
    readings: Seq<Option<i64>>,
    argument: Seq<char>,
    reading: Option<i64>,
)
    requires
        readings.len() == arguments.len(),
        is_complete(arguments, 0),
    ensures
        ({
            let before = asked_from(arguments, readings, 0, unasked());
            let after = asked_from(arguments.push(argument), readings.push(reading), 0, unasked());
            &&& argument == "--convert"@ ==> after == (Asked { convert: true, ..before })
            &&& argument == "--grid"@ ==> after == (Asked { grid: true, ..before })
            &&& argument == "--avif"@ ==> after == (Asked { format: Format::Avif, ..before })
            &&& argument == "--webp"@ ==> after == (Asked { format: Format::WebP, ..before })
            &&& argument == "--lossless"@ ==> after == (Asked { quality: Quality(None), ..before })
            &&& argument == "--max-edge"@ || argument == "--quality"@ ==> after == before
            &&& argument.len() == 0 || argument[0] != '-' ==> after == (Asked {
                root: Some(argument),
                ..before
            })
        }),
{
    let before = asked_from(arguments, readings, 0, unasked());
    let (back, behind) = (seq![argument], seq![reading]);
    lemma_read_on(arguments, back, readings, behind, 0, unasked());
    assert(arguments + back =~= arguments.push(argument));
    assert(readings + behind =~= readings.push(reading));
    lemma_options_differ();
    assert(back[0] == argument);
    reveal_with_fuel(asked_from, 3);
}

proof fn lemma_options_differ()
    ensures
        "--max-edge"@ != "--quality"@,
        "--max-edge"@ != "--convert"@,
        "--max-edge"@ != "--avif"@,
        "--max-edge"@ != "--webp"@,
        "--max-edge"@ != "--grid"@,
        "--max-edge"@ != "--lossless"@,
        "--quality"@ != "--convert"@,
        "--quality"@ != "--avif"@,
        "--quality"@ != "--webp"@,
        "--quality"@ != "--grid"@,
        "--quality"@ != "--lossless"@,
        "--convert"@ != "--avif"@,
        "--convert"@ != "--webp"@,
        "--convert"@ != "--grid"@,
        "--convert"@ != "--lossless"@,
        "--avif"@ != "--webp"@,
        "--avif"@ != "--grid"@,
        "--avif"@ != "--lossless"@,
        "--webp"@ != "--grid"@,
        "--webp"@ != "--lossless"@,
        "--grid"@ != "--lossless"@,
        "--max-edge"@[0] == '-',
        "--quality"@[0] == '-',
        "--convert"@[0] == '-',
        "--avif"@[0] == '-',
        "--webp"@[0] == '-',
        "--grid"@[0] == '-',
        "--lossless"@[0] == '-',
        "--max-edge"@.len() > 0,
        "--quality"@.len() > 0,
        "--convert"@.len() > 0,
        "--avif"@.len() > 0,
        "--webp"@.len() > 0,
        "--grid"@.len() > 0,
        "--lossless"@.len() > 0,
{
    reveal_strlit("--max-edge");
    reveal_strlit("--quality");
    reveal_strlit("--convert");
    reveal_strlit("--avif");
    reveal_strlit("--webp");
    reveal_strlit("--grid");
    reveal_strlit("--lossless");
    assert("--max-edge"@[2] == 'm' && "--quality"@[2] == 'q' && "--convert"@[2] == 'c');
    assert("--avif"@[2] == 'a' && "--webp"@[2] == 'w' && "--grid"@[2] == 'g');
    assert("--lossless"@[2] == 'l');
}

/// An option with its value sets that value: the edge to the number it reads as, the quality
/// to the number given, moved into its range. A value that is no number changes nothing.
pub proof fn law_options_take_their_values(
    arguments: Seq<Seq<char>>,
    readings: Seq<Option<i64>>,
    value: Seq<char>,
    first: Option<i64>,
    reading: Option<i64>,
)
    requires
        readings.len() == arguments.len(),
        is_complete(arguments, 0),
    ensures
        ({
            let before = asked_from(arguments, readings, 0, unasked());
            let values = readings.push(first).push(reading);
            let edge = asked_from(arguments.push("--max-edge"@).push(value), values, 0, unasked());
            let quality = asked_from(arguments.push("--quality"@).push(value), values, 0, unasked());
            &&& edge == (Asked { max_edge: edge.max_edge, ..before })
            &&& edge.max_edge == if edge_in(value) is Some {
                MaxEdge(edge_in(value))
            } else {
                before.max_edge
            }
            &&& quality == (Asked { quality: quality.quality, ..before })
            &&& reading is None ==> quality.quality == before.quality
            &&& reading matches Some(units) ==> quality.quality == Quality(
                Some(convert::clamped(units)),
            )
        }),
{
    lemma_options_differ();
    let behind = seq![first, reading];
    assert(readings + behind =~= readings.push(first).push(reading));
    let (a, b) = (seq!["--max-edge"@, value], seq!["--quality"@, value]);
    lemma_read_on(arguments, a, readings, behind, 0, unasked());
    lemma_read_on(arguments, b, readings, behind, 0, unasked());
    assert(arguments + a =~= arguments.push("--max-edge"@).push(value));
    assert(arguments + b =~= arguments.push("--quality"@).push(value));
    assert(a[0] == "--max-edge"@ && a[1] == value && b[0] == "--quality"@ && b[1] == value);
    reveal_with_fuel(asked_from, 3);
}

/// Every edge written in decimal is read as that edge, with a plus in front or without.
pub proof fn law_edges_read_as_written(edge: u32)
    ensures
        edge_in(text::decimal(edge as nat)) == Some(edge),
        edge_in(seq!['+'] + text::decimal(edge as nat)) == Some(edge),
{
    let digits = text::decimal(edge as nat);
    text::law_decimals_read_back(edge as nat);
    assert(settings::all_digits(digits));
    lemma_digits_value(digits);
    assert(digits[0] != '+');
    let signed = seq!['+'] + digits;
    assert(signed.skip(1) =~= digits);
}

proof fn lemma_digits_value(digits: Seq<char>)
    requires
        settings::all_digits(digits),
    ensures
        digits_value(digits) == text::read_back(digits),
    decreases digits.len(),
{
    if digits.len() > 0 {
        let front = digits.drop_last();
        assert forall|i: int| 0 <= i < front.len() implies settings::is_digit(
            #[trigger] front[i],
        ) by {
            assert(front[i] == digits[i]);
        }
        lemma_digits_value(front);
        assert(settings::is_digit(digits[digits.len() - 1]));
    }
}

/// Nothing asked for is WebP at quality 80 and at full size, in the window and in a list.
pub proof fn law_nothing_asked_for_is_webp_at_eighty(readings: Seq<Option<i64>>)
    ensures
        ({
            let asked = asked_from(seq![], readings, 0, unasked());
            &&& asked.format is WebP
            &&& asked.quality.0 == Some((80 * 8_388_608) as u32)
            &&& asked.max_edge.0 is None
            &&& asked.root is None
            &&& !asked.convert
            &&& !asked.grid
        }),
{
}

} // verus!
