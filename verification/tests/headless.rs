use imageguide::args::{
    parse_args, parse_edge, refusal_line, start, Args, Refusal, Start,
};
use imageguide::convert::{Format, MaxEdge, Quality};
use imageguide::headless::{
    closing_line, file_line, plan, scanned_line, total, written_line, Outcome, Totals,
};
use imageguide::picture::QUALITY_ONE;
use imageguide::scan::{format_bytes, Entry, ImageFormat};

fn entry(path: &str, bytes: u64) -> Entry {
    Entry {
        path: path.to_string(),
        format: ImageFormat::Png,
        width: 800,
        height: 600,
        bytes,
    }
}

fn outcome(bytes: u64, width: u32, height: u32) -> Option<Outcome> {
    Some(Outcome {
        bytes,
        width,
        height,
    })
}

#[test]
fn a_line_per_file_says_what_it_saved() {
    let cases = [
        ("/p/a.png", 4000u64, 1000u64, 800u32),
        ("/p/grew.png", 1000, 1100, 800),
        ("/p/same.png", 1000, 1000, 400),
        ("/p/barely.png", 1000, 1001, 800),
        ("/p/none.png", 0, 10, 800),
        (
            "/p/a name that is longer than the whole column it is meant to stand in.png",
            5,
            3,
            800,
        ),
        ("/p/ümläut.png", 2048, 1024, 800),
    ];
    for (path, before, after, width) in cases {
        let delta = before as i64 - after as i64;
        let percent = delta as f64 / before.max(1) as f64 * 100.;
        let resized = if width == 800 {
            String::new()
        } else {
            format!("  {width}x300")
        };
        let name = path.rsplit('/').next().unwrap();
        let expected = format!(
            "{:<52} {:>9} -> {:>9}  {percent:+.0}%{resized}",
            name,
            format_bytes(before),
            format_bytes(after)
        );
        let got = file_line(&entry(path, before), outcome(after, width, 300));
        assert_eq!(got, expected);
    }
    assert_eq!(
        file_line(&entry("/p/bad.png", 10), None),
        format!("{:<52} failed", "bad.png")
    );
}

#[test]
fn a_run_ends_with_its_totals() {
    let totals = total(&vec![(4000, Some(1000)), (500, None), (96, Some(24))]);
    assert_eq!(
        totals,
        Totals {
            before: 4096,
            after: 1024,
            failed: 1
        }
    );
    assert_eq!(
        closing_line(
            3,
            &totals,
            Format::Avif,
            Quality::lossy(50 * QUALITY_ONE as i64),
            MaxEdge(Some(1600))
        ),
        "\n2 converted to avif at q50 (1600px): 4.0 KB -> 1.0 KB, saved 3.0 KB (75%), 1 failed"
    );
    let grown = total(&vec![(100, Some(150))]);
    assert_eq!(
        closing_line(1, &grown, Format::WebP, Quality::lossless(), MaxEdge::full()),
        "\n1 converted to webp at lossless (full): 100 B -> 150 B, grew 50 B (50%)"
    );
    assert_eq!(total(&vec![(u64::MAX, Some(1)), (1, Some(1))]).before, u64::MAX);
    assert_eq!(written_line("/p"), "written to /p/optimized");
    assert_eq!(
        scanned_line(&vec![entry("/p/a.png", 1024), entry("/p/b.png", 1024)], 3),
        "2 images, 2.0 KB on disk, 3 camera raw skipped"
    );
}

#[test]
fn a_run_plans_every_file_of_the_folder() {
    let entries = vec![entry("/p/a.png", 2), entry("/p/sub/a.jpg", 1), entry("/p/a.gif", 1)];
    let tasks = plan("/p", &entries, Format::WebP);
    let written: Vec<(usize, &str)> = tasks
        .iter()
        .map(|task| (task.index, task.written.as_str()))
        .collect();
    assert_eq!(
        written,
        [
            (0, "/p/optimized/a.webp"),
            (1, "/p/optimized/sub/a.webp"),
            (2, "/p/optimized/a-2.webp"),
        ]
    );
    assert_eq!(tasks[1].source, "/p/sub/a.jpg");
}

fn parse(arguments: &[&str]) -> Args {
    let arguments: Vec<String> = arguments.iter().map(|a| a.to_string()).collect();
    let readings: Vec<Option<i64>> = arguments
        .iter()
        .map(|a| a.parse::<f32>().ok())
        .map(|value| value.map(|value| (value as f64 * QUALITY_ONE as f64) as i64))
        .collect();
    parse_args(&arguments, &readings)
}

#[test]
fn arguments_are_read_in_order() {
    let plain = parse(&[]);
    assert!(plain.root.is_none() && !plain.convert && !plain.grid);
    assert_eq!(plain.quality.0, Some(80 * QUALITY_ONE));
    assert_eq!((plain.format, plain.max_edge), (Format::WebP, MaxEdge(None)));

    let full = parse(&[
        "/shoot", "--convert", "--avif", "--max-edge", "1600", "--quality", "42.5", "--grid",
    ]);
    assert_eq!(full.root.as_deref(), Some("/shoot"));
    assert!(full.convert && full.grid);
    assert_eq!(full.quality.0, Some(QUALITY_ONE * 85 / 2));
    assert_eq!((full.format, full.max_edge), (Format::Avif, MaxEdge(Some(1600))));

    assert_eq!(parse(&["--quality", "500"]).quality.0, Some(100 * QUALITY_ONE));
    assert_eq!(parse(&["--quality", "30", "--lossless"]).quality.0, None);
    assert_eq!(parse(&["--avif", "--webp"]).format, Format::WebP);
    let swallowed = parse(&["--quality", "--convert", "--max-edge", "-1", "x"]);
    assert!(!swallowed.convert, "the value is taken even where it is none");
    assert_eq!(swallowed.max_edge, MaxEdge(None));
    assert_eq!(swallowed.root.as_deref(), Some("x"));
    assert_eq!(parse(&["--max-edge"]).max_edge, MaxEdge(None));
}

#[test]
fn edges_are_those_the_standard_library_reads() {
    for text in [
        "", "+", "0", "+7", "007", "4294967295", "4294967296", "99999999999999999999", "-1", "1.0",
        " 1", "1 ", "x", "00000000000000000004294967295", "++1",
    ] {
        assert_eq!(parse_edge(text), text.parse::<u32>().ok(), "{text:?}");
    }
}

#[test]
fn a_run_begins_where_it_was_told_or_where_the_last_one_ended() {
    let given = parse(&["/a"]);
    assert!(matches!(start(&given, Some("/b"), true), Start::Open(path) if path == "/a"));
    let nothing = parse(&[]);
    assert!(matches!(start(&nothing, Some("/b"), true), Start::Open(path) if path == "/b"));
    assert!(matches!(start(&nothing, Some("/b"), false), Start::Empty));
    assert!(matches!(start(&nothing, None, false), Start::Empty));
    let convert = parse(&["--convert"]);
    assert!(matches!(start(&convert, Some("/b"), true), Start::NeedsFolder));
    assert_eq!(
        refusal_line(Refusal::NeedsFolder, ""),
        "imageguide: --convert needs a folder"
    );
    assert_eq!(
        refusal_line(Refusal::NoSuchPath, "/x"),
        "imageguide: /x is not a file or folder"
    );
    assert_eq!(
        refusal_line(Refusal::NotAnImage, "/x"),
        "imageguide: /x is not an image"
    );
}
