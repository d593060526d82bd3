use imageguide::audit::{build_audit, Audit, Launch};
use imageguide::convert::{Format, MaxEdge, Quality};
use imageguide::number::Precision;
use imageguide::picture::QUALITY_ONE;
use imageguide::report::{
    named, notices, share_of, stats, summary, transfer_line, window_title, Meter, Tone,
};
use imageguide::scan::{format_bytes, Entry, ImageFormat, Scan};
use imageguide::sync::{Job, JobKind, Listing, Pairing};

fn strings(names: &[&str]) -> Vec<String> {
    names.iter().map(|name| name.to_string()).collect()
}

fn audit() -> Audit {
    let entry = |path: &str, bytes: u64| Entry {
        path: path.to_string(),
        format: ImageFormat::Jpeg,
        width: 100,
        height: 100,
        bytes,
    };
    build_audit(Launch {
        root: "/shoot/day one".to_string(),
        scan: Scan {
            entries: vec![
                entry("/shoot/day one/a.jpg", 3000),
                entry("/shoot/day one/b.jpg", 1000),
            ],
            skipped_raw: 0,
            unreadable: Vec::new(),
            existing_output: 0,
        },
        open_single: false,
        format: Format::WebP,
        quality: Quality::lossy(80 * QUALITY_ONE as i64),
        max_edge: MaxEdge::full(),
        grid: false,
    })
    .0
}

fn job(kind: JobKind, failures: &[&str], finished: bool) -> Job {
    Job {
        kind,
        done: 3,
        total: 10,
        failures: strings(failures),
        finished,
        generation: 0,
    }
}

#[test]
fn a_report_names_a_few_files_and_then_counts_the_rest() {
    let of = |names: &[&str]| named(&strings(names));
    assert_eq!(of(&[]), "");
    assert_eq!(of(&["a.png"]), "a.png");
    assert_eq!(of(&["a.png", "b.png", "c.png"]), "a.png, b.png, c.png");
    assert_eq!(
        of(&["a.png", "b.png", "c.png", "d.png", "e.png"]),
        "a.png, b.png, c.png and 2 more"
    );
}

#[test]
fn the_header_counts_what_is_shown() {
    let mut audit = audit();
    assert_eq!(stats(&audit), "2 images · 3.9 KB");
    audit.set_filter("b".to_string());
    audit.skipped_raw = 7;
    assert_eq!(
        stats(&audit),
        "1 of 2 images · 1000 B · 7 camera raw skipped"
    );
    let paired = |files| {
        Some(Pairing {
            dir: "/remote".to_string(),
            files,
        })
    };
    audit.skipped_raw = 0;
    audit.remote.pairing = paired(Listing::Walking);
    assert_eq!(stats(&audit), "1 of 2 images · 1000 B · Sirv: listing…");
    audit.remote.pairing = paired(Listing::Failed("no".to_string()));
    assert_eq!(stats(&audit), "1 of 2 images · 1000 B · Sirv: listing failed");
    audit.remote.counts = Some((1, 2, 3));
    assert_eq!(
        stats(&audit),
        "1 of 2 images · 1000 B · Sirv: 1 to push · 2 differ · 3 to pull"
    );
}

#[test]
fn notices_say_what_could_not_be_taken_at_face_value() {
    let mut audit = audit();
    let quiet = notices(&audit);
    assert!(quiet.mislabelled.is_none() && quiet.warning.is_none());
    audit.unreadable = strings(&["/shoot/x.jpg", "/"]);
    audit.existing_output = 1;
    assert_eq!(
        notices(&audit).warning.as_deref(),
        Some("would not decode: x.jpg  ·  optimized/ already holds 1 file")
    );
    audit.unreadable.clear();
    audit.existing_output = 12;
    audit.failures = strings(&["a", "b", "c", "d"]);
    audit.remote.pairing = Some(Pairing {
        dir: "/remote".to_string(),
        files: Listing::Failed("Sirv 500: readdir".to_string()),
    });
    audit.remote.job = Some(job(JobKind::Pull, &["1", "2", "3", "4"], true));
    audit.mislabelled = 2;
    let loud = notices(&audit);
    assert_eq!(
        loud.warning.as_deref(),
        Some(
            "optimized/ already holds 12 files  ·  failed: a, b, c and 1 more  ·  \
             could not list /remote: Sirv 500: readdir  ·  \
             Sirv pull: 3 of 10, 4 failed: 1, 2, 3"
        )
    );
    assert_eq!(
        loud.mislabelled.as_deref(),
        Some("2 files are not the format their extension claims")
    );
    audit.mislabelled = 1;
    assert_eq!(
        notices(&audit).mislabelled.as_deref(),
        Some("1 file is not the format its extension claims")
    );
}

#[test]
fn transfers_are_reported_as_they_stand() {
    assert_eq!(
        transfer_line(&job(JobKind::Pull, &[], false)),
        "Pulling 3 of 10…"
    );
    assert_eq!(
        transfer_line(&job(JobKind::Push, &["x"], false)),
        "Pushing 3 of 10…"
    );
    assert_eq!(
        transfer_line(&job(JobKind::Push, &[], true)),
        "Pushed 3 of 10"
    );
    assert_eq!(
        transfer_line(&job(JobKind::Pull, &["a", "b", "c", "d"], true)),
        "Pulled 3 of 10, 4 failed: a, b, c, d"
    );
}

#[test]
fn the_summary_has_four_states() {
    let mut audit = audit();
    let sizing = summary(&audit);
    assert_eq!(sizing.told.headline, "Sizing it up…");
    assert_eq!(sizing.told.detail, "3.9 KB on disk");
    assert_eq!(sizing.told.tone, Tone::Muted);
    assert!(sizing.told.meter.is_none() && sizing.told.tag.is_none());
    assert_eq!(sizing.convert, "Convert all to WEBP");
    assert!(sizing.convert_enabled && !sizing.convert_quiet && !sizing.reveal);

    audit.estimate = Some((1000, 2));
    let estimated = summary(&audit);
    assert_eq!(estimated.told.headline, "≈2.9 KB to save");
    assert_eq!(
        estimated.told.detail,
        "3.9 KB now → ≈1000 B as WEBP q80 · sampled 2"
    );
    assert_eq!(estimated.told.tag, Some((false, "−75%".to_string())));
    assert_eq!(
        estimated.told.meter,
        Some((
            Meter {
                filled: 3000,
                whole: 4000
            },
            Tone::Green
        ))
    );
    audit.estimate = Some((5000, 2));
    let growing = summary(&audit);
    assert_eq!(growing.told.headline, "≈1000 B to grow");
    assert_eq!(growing.told.tag, Some((true, "+25%".to_string())));
    assert_eq!(growing.told.tone, Tone::Yellow);

    audit.results.insert(0, 1500);
    let converted = summary(&audit);
    assert_eq!(converted.told.headline, "1.5 KB saved");
    assert_eq!(converted.told.detail, "1 converted · 2.9 KB → 1.5 KB");
    assert_eq!(converted.told.tag, Some((false, "−50%".to_string())));
    assert!(converted.reveal);
    audit.results.insert(0, 4000);
    assert_eq!(summary(&audit).told.headline, "1000 B larger");

    audit.selected.insert(1);
    let ticked = summary(&audit);
    assert_eq!(ticked.clear.as_deref(), Some("Clear 1"));
    assert_eq!(ticked.convert, "Convert 1 to WEBP");

    audit.start_conversion().unwrap();
    let running = summary(&audit);
    assert_eq!(running.told.headline, "0 of 1");
    assert_eq!(running.told.detail, "Converting to WEBP q80…");
    assert_eq!(running.convert, "Converting…");
    assert!(!running.convert_enabled && running.convert_quiet && running.clear.is_none());
}

#[test]
fn shares_round_as_the_formatter_does() {
    for (part, whole) in [
        (0u64, 0u64),
        (1, 3),
        (1, 200),
        (3, 200),
        (5, 1000),
        (25, 1000),
        (123_456, 7),
        (u64::MAX, 1),
        (16_777_217, 33_554_433),
    ] {
        let single = part as f32 / whole.max(1) as f32 * 100.;
        assert_eq!(
            share_of(part, whole, Precision::Single),
            format!("{single:.0}")
        );
        let double = part as f64 / whole.max(1) as f64 * 100.;
        assert_eq!(
            share_of(part, whole, Precision::Double),
            format!("{double:.0}")
        );
    }
    assert_eq!(format_bytes(3000), "2.9 KB");
}

#[test]
fn the_title_names_the_folder() {
    assert_eq!(window_title("/shoot/day one"), "day one — ImageGuide");
    assert_eq!(window_title("/"), "ImageGuide");
    assert_eq!(window_title(""), "ImageGuide");
}
