use imageguide::audit::{build_audit, Audit, Launch};
use imageguide::compare::Pair;
use imageguide::convert::{Format, MaxEdge, Quality};
use imageguide::layout::{TableColumn, PIXEL};
use imageguide::picture::QUALITY_ONE;
use imageguide::report::{Meter, Tone};
use imageguide::rows::Finding;
use imageguide::scan::{Entry, ImageFormat, Scan};
use imageguide::sirv::Node;
use imageguide::stage::{Point, Ratio, Stage};
use imageguide::sync::{key_files, Listing, Pairing};
use imageguide::thumbs::Drawing;
use imageguide::view::{
    browser_view, cell, compare_words, controls, empty_words, header, row_marks, scanning_words,
    screen, sync_label, tile, Cell, Listed, Screen,
};

fn entry(path: &str, bytes: u64, format: ImageFormat) -> Entry {
    Entry {
        path: path.to_string(),
        format,
        width: 100,
        height: 50,
        bytes,
    }
}

fn audit() -> Audit {
    build_audit(Launch {
        root: "/shoot".to_string(),
        scan: Scan {
            entries: vec![
                entry("/shoot/shot.png", 20_000, ImageFormat::Png),
                entry("/shoot/liar.webp", 4_000, ImageFormat::Jpeg),
                entry("/shoot/good.webp", 1_000, ImageFormat::WebP),
            ],
            skipped_raw: 0,
            unreadable: Vec::new(),
            existing_output: 0,
        },
        open_single: false,
        format: Format::WebP,
        quality: Quality::lossy(80 * QUALITY_ONE as i64),
        max_edge: MaxEdge(Some(1600)),
        grid: false,
    })
    .0
}

fn node(filename: &str, kind: &str, size: u64) -> Node {
    Node {
        filename: filename.to_string(),
        kind: kind.to_string(),
        size,
    }
}

fn pair_with(audit: &mut Audit) {
    let files = key_files(
        "/remote",
        &vec![
            node("/remote/shot.png", "file", 20_000),
            node("/remote/liar.webp", "file", 1),
            node("/remote/extra.png", "file", 9),
        ],
    );
    audit.remote.pairing = Some(Pairing {
        dir: "/remote".to_string(),
        files: Listing::Ready(files),
    });
    let root = audit.root.clone();
    audit.remote.refresh_counts(&root, &audit.entries);
}

#[test]
fn one_view_covers_the_others() {
    let mut audit = audit();
    assert_eq!(screen(&audit, false), Screen::List);
    audit.open_compare(0);
    assert_eq!(screen(&audit, false), Screen::Compare);
    audit.remote.open_browser(true, None);
    assert_eq!(screen(&audit, false), Screen::Browser);
    assert_eq!(screen(&audit, true), Screen::Settings);
    audit.request_path("/x/y", false, true);
    assert_eq!(screen(&audit, true), Screen::Scanning);
    assert_eq!(scanning_words("y"), "Scanning y…");
    let none = Scan {
        entries: Vec::new(),
        skipped_raw: 0,
        unreadable: Vec::new(),
        existing_output: 0,
    };
    audit.land_scan(audit.scan_generation, Some((none, "/x/y".to_string())), false);
    assert_eq!(screen(&audit, true), Screen::Empty);
    assert_eq!(empty_words(true).0, "No supported images found");
    assert_eq!(empty_words(false).0, "Audit a folder of images");
}

#[test]
fn the_header_names_the_folder_and_its_pairing() {
    let mut audit = audit();
    let plain = header(&audit);
    assert_eq!((plain.folder.as_str(), plain.path.as_str()), ("shoot", "/shoot"));
    assert_eq!(plain.sync, "Sirv…");
    assert_eq!(plain.view, "Grid");
    pair_with(&mut audit);
    audit.toggle_grid();
    let paired = header(&audit);
    assert_eq!(paired.sync, "/remote");
    assert_eq!(paired.view_tooltip, "Show the audit as a list");
    assert!(paired.stats.ends_with("Sirv: 1 to push · 1 differ · 1 to pull"));
}

#[test]
fn controls_light_what_is_in_force() {
    let mut audit = audit();
    audit.set_finding(Finding::Heavy);
    let shown = controls(&audit);
    assert_eq!(shown.heavy, Some(("1 heavy".to_string(), true)));
    let lit: Vec<&str> = shown
        .edges
        .iter()
        .chain(&shown.formats)
        .filter(|choice| choice.chosen)
        .map(|choice| choice.label.as_str())
        .collect();
    assert_eq!(lit, ["1600px", "WEBP"]);
    assert_eq!(shown.quality, "80");
    audit.toggle_lossless();
    let lossless = controls(&audit);
    assert_eq!(lossless.quality, "—");
    assert!(lossless.lossless && !lossless.locked);
}

#[test]
fn cells_say_what_the_audit_found() {
    let mut audit = audit();
    pair_with(&mut audit);
    audit.results.insert(0, 5_000);
    audit.results.insert(1, 5_000);
    audit.selected.insert(1);
    let of = |row: usize, column: TableColumn| cell(&audit, row, column).unwrap();
    assert!(matches!(of(1, TableColumn::Tick), Cell::Tick(true)));
    assert!(matches!(of(0, TableColumn::Thumb), Cell::Thumb(false)));
    assert!(matches!(of(0, TableColumn::Name), Cell::Name(name) if name == "shot.png"));
    assert!(matches!(
        of(1, TableColumn::Format),
        Cell::Format("JPEG", Tone::Yellow, true)
    ));
    assert!(matches!(
        of(2, TableColumn::Format),
        Cell::Format("WebP", Tone::Green, false)
    ));
    assert!(matches!(of(0, TableColumn::Pixels), Cell::Pixels(size) if size == "100×50"));
    assert!(matches!(of(0, TableColumn::Density), Cell::Density(d, Tone::Red) if d == "4.00"));
    assert!(matches!(of(1, TableColumn::Density), Cell::Density(d, Tone::Yellow) if d == "0.80"));
    assert!(matches!(of(2, TableColumn::Density), Cell::Density(d, Tone::Green) if d == "0.20"));
    match of(1, TableColumn::Weight) {
        Cell::Weight(weight, meter) => {
            assert_eq!(weight, "3.9 KB");
            assert_eq!(
                meter,
                Meter {
                    filled: 4_000,
                    whole: 20_000
                }
            );
        }
        other => panic!("{other:?}"),
    }
    assert!(matches!(
        of(0, TableColumn::Sync),
        Cell::Sync(Some(("synced", Tone::Muted)))
    ));
    assert!(matches!(
        of(1, TableColumn::Sync),
        Cell::Sync(Some(("changed", Tone::Yellow)))
    ));
    assert!(matches!(
        of(2, TableColumn::Sync),
        Cell::Sync(Some(("new", Tone::Blue)))
    ));
    assert!(matches!(
        of(0, TableColumn::Result),
        Cell::Result(Some((size, Some(saved)))) if size == "4.9 KB" && saved == "−75%"
    ));
    assert!(matches!(
        of(1, TableColumn::Result),
        Cell::Result(Some((_, None)))
    ));
    assert!(matches!(of(2, TableColumn::Result), Cell::Result(None)));
    assert!(cell(&audit, 3, TableColumn::Name).is_none());
    assert!(row_marks(&audit, 1).ticked && !row_marks(&audit, 1).at_cursor);
    assert_eq!(row_marks(&audit, 0).rail, Some(Tone::Red));
    assert_eq!(row_marks(&audit, 9).rail, None);
    let first = tile(&audit, 0).unwrap();
    assert_eq!(first.weight, "19.5 KB → 4.9 KB");
    assert_eq!(first.sync, Some(("synced", Tone::Muted)));
    assert!(first.at_cursor && !first.ticked);
    assert_eq!(tile(&audit, 2).unwrap().weight, "1000 B");
    assert!(tile(&audit, 3).is_none());
    audit.remote.pairing = None;
    assert_eq!(sync_label(&audit, &audit.entries[0]), None);
}

#[test]
fn the_browser_lists_folders_and_offers_what_can_be_done() {
    let mut audit = audit();
    assert!(browser_view(&audit).is_none());
    audit.remote.open_browser(false, Some("/cfg/sirv"));
    let refused = browser_view(&audit).unwrap();
    assert!(!refused.can_pair);
    assert!(matches!(
        refused.listed,
        Listed::Failed(words)
            if words == "No Sirv credentials. Add client_id and client_secret to /cfg/sirv"
    ));
    pair_with(&mut audit);
    let request = audit.remote.open_browser(true, None).unwrap();
    let waiting = browser_view(&audit).unwrap();
    assert!(matches!(waiting.listed, Listed::Waiting(words) if words == "Listing /remote…"));
    let buttons = waiting.paired.unwrap();
    assert_eq!(buttons.pull, "Pull 1 missing");
    assert_eq!(buttons.push, "Push 1 new");
    assert_eq!(buttons.unpair, "Unpair /remote");
    assert!(buttons.pull_enabled && buttons.push_enabled && buttons.unpair_enabled);
    audit.remote.land_listing(
        request.generation,
        Ok(vec![
            node("/remote/sub", "folder", 0),
            node("/remote/a.png", "file", 1),
            node("bare", "folder", 0),
        ]),
    );
    let listed = browser_view(&audit).unwrap();
    assert!(listed.can_pair);
    match listed.listed {
        Listed::Folders { up, names } => {
            assert!(up);
            assert_eq!(names, ["sub", "bare"]);
        }
        other => panic!("{other:?}"),
    }
    let root = audit.root.clone();
    let entries = std::mem::take(&mut audit.entries);
    audit.remote.start_push(&root, &entries).unwrap();
    audit.entries = entries;
    let busy = browser_view(&audit).unwrap();
    assert!(!busy.paired.unwrap().pull_enabled);
    assert_eq!(
        busy.transfer,
        Some(("Pushing 0 of 1…".to_string(), Tone::Muted))
    );
}

#[test]
fn a_comparison_reports_both_sides() {
    let mut audit = audit();
    let whole = Ratio { over: 1, under: 1 };
    assert!(compare_words(&audit, None, whole).is_none());
    audit.open_compare(0);
    let waiting = compare_words(&audit, None, whole).unwrap();
    assert_eq!(waiting.status, "decoding…");
    assert_eq!((waiting.name.as_str(), waiting.side), ("shot.png", "WEBP"));
    let drawing = || Drawing {
        width: 1,
        height: 1,
        bgra: vec![0; 4],
    };
    let pair = Pair {
        original: drawing(),
        converted: drawing(),
        converted_bytes: 5_000,
        width: 100,
        height: 50,
    };
    let words = compare_words(&audit, Some(&pair), Ratio { over: 1, under: 8 }).unwrap();
    assert_eq!(words.sizes.as_deref(), Some("19.5 KB → WEBP q80 · 4.9 KB"));
    assert_eq!(words.saving, Some(("−75%".to_string(), Tone::Green)));
    assert_eq!(words.status, "100×50 · 12%");
    audit.open_compare(2);
    let grown = compare_words(&audit, Some(&pair), whole).unwrap();
    assert_eq!(grown.saving, Some(("+400%".to_string(), Tone::Yellow)));
    assert_eq!(grown.status, "100×50 · 100%");
    // 1180 of 4000 pixels is just under 29.5 in single precision.
    let fitted = Ratio {
        over: 1180 * PIXEL as u64,
        under: 4000 * PIXEL as u64,
    };
    let shown = compare_words(&audit, Some(&pair), fitted).unwrap();
    assert_eq!(shown.status, "100×50 · 29%");
}

fn at(x: i64, y: i64) -> Point {
    Point {
        x: x * PIXEL,
        y: y * PIXEL,
    }
}

#[test]
fn the_stage_opens_fitted_and_never_scales_up() {
    let stage = Stage::new();
    let (w, h) = (900 * PIXEL, 600 * PIXEL);
    let small = stage.scale(400, 300, w, h);
    assert_eq!((small.over, small.under), (1, 1));
    let placed = stage.place(400, 300, w, h);
    assert_eq!((placed.left, placed.top), (250 * PIXEL, 150 * PIXEL));
    let large = stage.place(1800, 600, w, h);
    assert_eq!((large.width, large.height), (900 * PIXEL, 300 * PIXEL));
    assert_eq!((large.left, large.top), (0, 150 * PIXEL));
}

#[test]
fn pictures_of_any_size_are_fitted() {
    let mut stage = Stage::new();
    let view = 900 * PIXEL;
    let scale = stage.scale(u32::MAX, 1, view, view);
    assert_eq!(scale.over, view as u64);
    assert_eq!(scale.under, u32::MAX as u64 * PIXEL as u64);
    let placed = stage.place(u32::MAX, 1, view, view);
    assert_eq!((placed.left, placed.width), (0, view));
    stage.zoom_to(Ratio { over: 1, under: 1 }, scale, at(1, 0));
    assert_eq!(stage.zoom, Some(Ratio { over: 1, under: 1 }));
    // One pixel of the window stands for 4772185.88 of the picture.
    assert_eq!(stage.pan.x / PIXEL, 1 - 4_772_185);
    stage.zoom_to(scale, Ratio { over: 1, under: 1 }, at(1, 0));
    assert_eq!(stage.zoom, Some(Ratio { over: 1, under: 50 }));
}

#[test]
fn a_frame_shows_one_view() {
    let mut audit = audit();
    let frame = audit.render(false, 873 * PIXEL, 0, 0);
    assert_eq!(frame.screen, Screen::List);
    assert!(frame.gallery.is_none(), "the table is shown");
    audit.toggle_grid();
    let (layout, scroll_back) = audit.render(false, 873 * PIXEL, 0, 0).gallery.unwrap();
    assert_eq!((layout.columns, layout.rows, layout.entries), (4, 1, 3));
    assert!(!scroll_back, "the first layout moves nothing");
    let frame = audit.render(true, 600 * PIXEL, 0, 0);
    assert_eq!(frame.screen, Screen::Settings);
    assert_eq!(audit.gallery_columns, Some(4), "nothing is laid out behind the form");
}

#[test]
fn dragging_pans_and_hovering_moves_the_divider() {
    let mut stage = Stage::new();
    let w = 900 * PIXEL;
    stage.follow(at(225, 10), w);
    assert_eq!(stage.split, Ratio { over: 225 * PIXEL as u64, under: w as u64 });
    stage.follow(at(-5, 10), w);
    assert_eq!(stage.split.over, 0);
    stage.follow(at(2000, 10), w);
    assert_eq!(stage.split.over, stage.split.under);
    stage.grab(at(100, 100));
    stage.follow(at(130, 90), w);
    assert_eq!(stage.pan, at(30, -10));
    stage.follow(at(100, 100), w);
    assert_eq!(stage.pan, at(0, 0), "back where it began");
    stage.follow(at(101, 101), w);
    stage.release();
    stage.actual();
    assert_eq!(stage.pan, at(0, 0));
    assert_eq!(stage.zoom, Some(Ratio { over: 1, under: 1 }));
    stage.fit();
    assert_eq!(stage.zoom, None);
}

#[test]
fn zooming_keeps_what_is_under_the_pointer() {
    let mut stage = Stage::new();
    let before = Ratio { over: 1, under: 2 };
    stage.zoom_to(Ratio { over: 1, under: 1 }, before, at(100, -40));
    assert_eq!(stage.pan, at(-100, 40));
    stage.zoom_to(before, Ratio { over: 1, under: 1 }, at(100, -40));
    assert_eq!(stage.pan, at(0, 0));
    stage.zoom_to(Ratio { over: 1000, under: 1 }, before, at(0, 0));
    assert_eq!(stage.zoom, Some(Ratio { over: 16, under: 1 }));
    stage.zoom_to(Ratio { over: 1, under: 1000 }, before, at(0, 0));
    assert_eq!(stage.zoom, Some(Ratio { over: 1, under: 50 }));
}

#[test]
fn the_longest_picture_is_shown_whole_at_the_largest_scale() {
    let view = (1000 * PIXEL, 800 * PIXEL);
    let mut stage = Stage::new();
    let before = stage.scale(1 << 27, 4, view.0, view.1);
    stage.zoom_to(Ratio { over: 20, under: 1 }, before, at(0, 0));
    let placed = stage.place(1 << 27, 4, view.0, view.1);
    assert_eq!(placed.width, (1 << 31) * PIXEL);
    assert_eq!(placed.left, (500 - (1 << 30)) * PIXEL);
    let longest = stage.place(u32::MAX, 1, view.0, view.1);
    assert_eq!(longest.width, u32::MAX as i64 * 16 * PIXEL);
}
