use imageguide::audit::{
    build_audit, conversion_targets, is_weighable, plan_tasks, progress_batch_ready, Audit, Click,
    Clicked, Launch, Opening, Progress, THUMB_CACHE,
};
use imageguide::convert::{Format, MaxEdge, Quality};
use imageguide::keys::{
    compare_key, form_key, is_checkbox_activation_key, CompareKey, FormKey, Modifiers, Pressed,
};
use imageguide::layout::PIXEL;
use imageguide::picture::QUALITY_ONE;
use imageguide::rows::{Column, Finding};
use imageguide::scan::{Entry, ImageFormat, Scan};
use imageguide::sirv::Node;
use imageguide::sync::{Job, JobKind};
use std::collections::HashSet;

fn entry(name: &str, width: u32, height: u32, bytes: u64, format: ImageFormat) -> Entry {
    Entry {
        path: name.to_string(),
        format,
        width,
        height,
        bytes,
    }
}

fn scanned(entries: Vec<Entry>) -> Scan {
    Scan {
        entries,
        skipped_raw: 0,
        unreadable: Vec::new(),
        existing_output: 0,
    }
}

fn audit_of(entries: Vec<Entry>, grid: bool) -> Audit {
    let (audit, _) = build_audit(Launch {
        root: String::new(),
        scan: scanned(entries),
        open_single: false,
        format: Format::WebP,
        quality: Quality::lossy(80 * QUALITY_ONE as i64),
        max_edge: MaxEdge::full(),
        grid,
    });
    audit
}

fn finding_audit() -> Audit {
    audit_of(
        vec![
            entry("photo.jpg", 1000, 1000, 100_000, ImageFormat::Jpeg),
            entry("screenshot.png", 100, 100, 300_000, ImageFormat::Png),
            entry("liar.webp", 100, 100, 1_000, ImageFormat::Png),
        ],
        false,
    )
}

fn pointer_checkbox_audit(grid: bool) -> Audit {
    let mut audit = audit_of(
        vec![
            entry("first.png", 10, 10, 100, ImageFormat::Png),
            entry("second.png", 10, 10, 200, ImageFormat::Png),
        ],
        grid,
    );
    audit.selected.extend([0, 1]);
    audit.estimate = Some((123, 2));
    audit
}

fn many(count: usize) -> Audit {
    audit_of(
        (0..count)
            .map(|index| {
                let bytes = (count - index) as u64;
                entry(&format!("image-{index:04}.png"), 1, 1, bytes, ImageFormat::Png)
            })
            .collect(),
        true,
    )
}

fn shown(audit: &Audit) -> Vec<String> {
    audit
        .visible
        .iter()
        .map(|index| audit.entries[*index].name())
        .collect()
}

fn set(items: &[usize]) -> HashSet<usize> {
    items.iter().copied().collect()
}

fn plain() -> Click {
    Click {
        count: 1,
        platform: false,
        control: false,
        shift: false,
    }
}

#[test]
fn conversion_targets_follow_visible_order() {
    let visible = vec![2, 0, 1];
    assert_eq!(conversion_targets(&visible, &HashSet::new()), vec![2, 0, 1]);

    let selected = HashSet::from([0, 3]);
    assert_eq!(conversion_targets(&visible, &selected), vec![0]);

    let hidden = HashSet::from([3]);
    assert!(conversion_targets(&visible, &hidden).is_empty());
}

#[test]
fn conversion_progress_publishes_by_worker_window_and_flushes_the_tail() {
    assert!(!progress_batch_ready(7, 8, true));
    assert!(progress_batch_ready(8, 8, true));
    assert!(progress_batch_ready(3, 8, false));
}

#[test]
fn a_finding_narrows_the_list_and_a_second_click_widens_it() {
    let mut audit = finding_audit();
    assert_eq!(audit.visible.len(), 3, "everything, to begin with");

    audit.set_finding(Finding::Mislabelled);
    assert_eq!(
        shown(&audit),
        ["liar.webp"],
        "only the file whose extension disagrees with its bytes"
    );

    audit.set_finding(Finding::Heavy);
    assert_eq!(
        shown(&audit),
        ["screenshot.png"],
        "one finding at a time, and heavy means bytes per pixel"
    );

    audit.set_finding(Finding::Heavy);
    assert_eq!(audit.visible.len(), 3, "asking again puts the list back");
}

#[test]
fn unpairing_stops_a_running_transfer() {
    let mut audit = finding_audit();
    audit.remote.job = Some(Job {
        kind: JobKind::Push,
        done: 3,
        total: 100,
        failures: Vec::new(),
        finished: false,
        generation: audit.remote.generation,
    });
    let running = audit.remote.generation;

    audit.remote.unpair();

    assert_ne!(
        audit.remote.generation, running,
        "the loop's next check has to fail"
    );
    assert!(audit.remote.superseded(running));
    let job = audit.remote.job.as_ref().expect("the job is still reported");
    assert!(job.finished, "and it stops saying it is running");
    assert_eq!(
        job.failures,
        ["stopped"],
        "the reason is named, not implied"
    );
}

#[test]
fn opening_another_folder_clears_the_finding() {
    let mut audit = finding_audit();
    audit.set_finding(Finding::Heavy);
    audit.install_dataset(
        scanned(vec![entry("new.png", 10, 10, 100, ImageFormat::Png)]),
        "/elsewhere".to_string(),
        false,
    );
    assert_eq!(audit.finding, None);
    assert_eq!(audit.visible.len(), 1);
}

fn assert_pointer_checkbox_toggle(mut audit: Audit) {
    let before = audit.estimate_generation;

    audit.toggle_entry(0);
    assert_eq!(audit.selected, set(&[1]));
    assert!(audit.compare.is_none());
    assert_eq!(audit.estimate_generation, before + 1);
    assert_eq!(audit.estimate, None);

    audit.toggle_entry(0);
    assert_eq!(audit.selected, set(&[0, 1]));
    assert!(audit.compare.is_none());
    assert_eq!(audit.estimate_generation, before + 2);
    assert_eq!(audit.estimate, None);
}

#[test]
fn grid_checkbox_pointer_click_stays_inside_checkbox() {
    assert_pointer_checkbox_toggle(pointer_checkbox_audit(true));
}

#[test]
fn table_checkbox_pointer_click_stays_inside_checkbox() {
    assert_pointer_checkbox_toggle(pointer_checkbox_audit(false));
}

#[test]
fn keyboard_selection_refreshes_estimate() {
    let mut audit = pointer_checkbox_audit(false);
    let before = audit.estimate_generation;

    audit.toggle_cursor_selection();
    assert_eq!(audit.selected, set(&[0]));
    assert_eq!(audit.estimate_generation, before + 1);
    assert_eq!(audit.estimate, None);
}

#[test]
fn checkbox_activation_owns_only_unmodified_space_and_enter() {
    for key in ["space", "enter"] {
        assert!(is_checkbox_activation_key(key, Modifiers::default()));
        let control = Modifiers {
            control: true,
            ..Modifiers::default()
        };
        assert!(!is_checkbox_activation_key(key, control));
    }
    assert!(!is_checkbox_activation_key("down", Modifiers::default()));
}

#[test]
fn gallery_scroll_resets_only_when_the_production_column_count_changes() {
    let mut audit = many(120);
    assert!(!audit.lay_out_gallery(4), "the first layout moves nothing");
    assert!(!audit.lay_out_gallery(4));
    assert!(audit.lay_out_gallery(3));
    assert!(!audit.lay_out_gallery(3));

    let mut audit = many(120);
    audit.grid = true;
    let mut resize = |width: i64| {
        let frame = audit.render(false, width * PIXEL, 0, 0);
        let (layout, scroll_back) = frame.gallery.expect("the gallery is shown");
        (layout.columns, scroll_back)
    };
    assert_eq!(resize(873), (4, false));
    assert_eq!(resize(873), (4, false));
    assert_eq!(resize(600), (3, true));
    assert_eq!(resize(600), (3, false));
    assert_eq!(resize(700), (3, false));
}

#[test]
fn a_fresh_audit_lists_the_heaviest_first_and_asks_for_samples() {
    let (audit, installed) = build_audit(Launch {
        root: "/shoot".to_string(),
        scan: scanned(vec![
            entry("/shoot/a.png", 4, 4, 10, ImageFormat::Png),
            entry("/shoot/b.png", 4, 4, 30, ImageFormat::Png),
        ]),
        open_single: true,
        format: Format::Avif,
        quality: Quality::lossless(),
        max_edge: MaxEdge(Some(1600)),
        grid: false,
    });
    assert_eq!(shown(&audit), ["b.png", "a.png"]);
    assert_eq!(audit.visible_bytes, 40);
    assert_eq!(audit.heaviest, 30);
    assert_eq!(audit.slider_quality, 80 * QUALITY_ONE as i64);
    let sampling = installed.sampling.expect("there is something to sample");
    assert_eq!(sampling.generation, audit.estimate_generation);
    assert_eq!(sampling.strata.len(), 2);
    assert!(matches!(installed.opening, Opening::Build(_)));
    assert_eq!(audit.compare.as_ref().unwrap().index, 0);
}

#[test]
fn sorting_by_the_same_column_again_turns_the_list_round() {
    let mut audit = finding_audit();
    audit.set_sort(Column::Name);
    assert_eq!(shown(&audit), ["liar.webp", "photo.jpg", "screenshot.png"]);
    audit.set_sort(Column::Name);
    assert_eq!(shown(&audit), ["screenshot.png", "photo.jpg", "liar.webp"]);
    audit.set_sort(Column::Weight);
    assert_eq!(shown(&audit), ["screenshot.png", "photo.jpg", "liar.webp"]);
}

#[test]
fn a_filter_hides_files_from_the_conversion_too() {
    let mut audit = finding_audit();
    audit.select_all();
    audit.set_filter("PNG".to_string());
    assert_eq!(shown(&audit), ["screenshot.png"]);
    assert_eq!(audit.targets(), [1]);
    assert_eq!(audit.target_bytes(), 300_000);
    let conversion = audit.start_conversion().expect("there is a target");
    assert_eq!(conversion.tasks.len(), 1);
    assert_eq!(conversion.tasks[0].source, "screenshot.png");
    assert_eq!(conversion.tasks[0].written, "optimized/screenshot.webp");
    assert!(audit.converting);
}

#[test]
fn a_running_conversion_locks_what_it_reads() {
    let mut audit = finding_audit();
    audit.start_conversion().unwrap();
    assert!(audit.start_conversion().is_none());
    assert!(audit.set_format(Format::Avif).is_none());
    assert!(audit.set_quality(20 * QUALITY_ONE as i64).is_none());
    assert!(audit.set_max_edge(MaxEdge(Some(10))).is_none());
    assert!(audit.toggle_lossless().is_none());
    assert!(audit.set_filter("x".to_string()).is_none());
    assert!(audit.request_path("/x", true, false).is_none());
    assert_eq!(audit.format, Format::WebP);
    assert_eq!(audit.visible.len(), 3);
    assert!(matches!(audit.click_row(0, plain()), Clicked::Nothing));

    audit.publish(audit.dataset_generation, &vec![(1, Some(5)), (0, None)]);
    assert_eq!(audit.results.get(&1), Some(&5));
    assert_eq!(audit.failures, ["photo.jpg"]);
    assert_eq!(audit.converted_totals(), (300_000, 5));
    audit.publish(audit.dataset_generation + 1, &vec![(2, Some(5))]);
    assert_eq!(audit.results.len(), 1, "another folder's batch lands nowhere");
    audit.finish_conversion(audit.dataset_generation);
    assert!(!audit.converting);
}

#[test]
fn a_change_of_settings_drops_the_results_and_the_estimate() {
    let mut audit = finding_audit();
    audit.results.insert(1, 5);
    audit.estimate = Some((1, 1));
    let generation = audit.estimate_generation;
    assert!(audit.toggle_lossless().is_some());
    assert_eq!(audit.quality, Quality::lossless());
    assert!(audit.results.is_empty());
    assert_eq!(audit.estimate, None);
    assert!(!audit.wants_sampling(generation, audit.dataset_generation));
    audit.set_quality(33 * QUALITY_ONE as i64);
    audit.toggle_lossless();
    audit.toggle_lossless();
    assert_eq!(audit.quality.0, Some(33 * QUALITY_ONE), "back to the slider");
    audit.set_max_edge(MaxEdge(Some(1000)));
    audit.set_format(Format::Avif);
    assert_eq!((audit.max_edge, audit.format), (MaxEdge(Some(1000)), Format::Avif));
    audit.toggle_grid();
    assert!(audit.grid);
}

#[test]
fn an_estimate_for_an_older_state_lands_nowhere() {
    let mut audit = finding_audit();
    let old = audit.estimate_generation;
    audit.set_finding(Finding::Heavy);
    let slices = vec![(1000, Some((100, 10)))];
    audit.land_estimate(old, audit.dataset_generation, &slices);
    assert_eq!(audit.estimate, None);
    audit.land_estimate(audit.estimate_generation, audit.dataset_generation, &slices);
    assert_eq!(audit.estimate, Some((100, 1)));
}

#[test]
fn clicks_follow_the_rules_every_file_list_uses() {
    let mut audit = many(6);
    assert!(matches!(audit.click_row(1, plain()), Clicked::Picked(Some(_))));
    assert_eq!(audit.selected, set(&[1]));
    let shift = Click {
        shift: true,
        ..plain()
    };
    audit.click_row(4, shift);
    assert_eq!(audit.selected, set(&[1, 2, 3, 4]));
    let control = Click {
        control: true,
        ..plain()
    };
    audit.click_row(2, control);
    assert_eq!(audit.selected, set(&[1, 3, 4]));
    assert_eq!((audit.cursor, audit.anchor), (2, 1));
    let double = Click {
        count: 2,
        ..plain()
    };
    assert!(matches!(audit.click_row(5, double), Clicked::Opened(Opening::Build(_))));
    assert_eq!(audit.compare.as_ref().unwrap().index, 5);
    assert!(matches!(audit.click_row(6, plain()), Clicked::Nothing));
}

#[test]
fn keys_move_the_cursor_and_drag_the_selection() {
    let none = Modifiers::default();
    let shift = Modifiers {
        shift: true,
        ..none
    };
    let mut audit = many(30);
    audit.lay_out_gallery(4);
    audit.press("down", none);
    audit.press("right", none);
    audit.press("pagedown", none);
    assert_eq!(audit.cursor, 12);
    assert_eq!(audit.scroll_target(), 3);
    audit.press("left", none);
    assert_eq!(audit.cursor, 11, "one tile across");
    audit.press("end", none);
    assert_eq!(audit.cursor, 29);
    audit.press("down", none);
    assert_eq!(audit.cursor, 29);
    audit.press("home", none);
    assert_eq!(audit.cursor, 0);
    audit.press("up", none);
    assert_eq!(audit.cursor, 0);
    audit.press("down", shift);
    audit.press("down", shift);
    assert_eq!(audit.selected, set(&[0, 1, 2]));
    audit.press("space", none);
    assert_eq!(audit.selected, set(&[0, 1]));
    audit.press("escape", none);
    assert!(audit.selected.is_empty());
    let control = Modifiers {
        control: true,
        ..none
    };
    assert!(matches!(audit.press("a", none), Pressed::Nothing));
    audit.press("a", control);
    assert_eq!(audit.selected.len(), 30);
    assert!(matches!(audit.press(",", control), Pressed::OpenSettings));
    assert!(matches!(audit.press(",", none), Pressed::Nothing));
    assert!(matches!(audit.press("enter", none), Pressed::Opened(Opening::Build(_))));
}

#[test]
fn a_comparison_steps_through_what_is_on_screen() {
    let mut audit = finding_audit();
    audit.open_compare(1);
    let (meaning, opening) = audit.press_compare("right");
    assert_eq!(meaning, CompareKey::Step(true));
    assert!(matches!(opening, Opening::Build(_)));
    assert_eq!(audit.compare.as_ref().unwrap().index, 0);
    assert_eq!(audit.cursor, 1);
    audit.press_compare("up");
    assert_eq!(audit.compare.as_ref().unwrap().index, 1);
    assert!(matches!(audit.press_compare("left").1, Opening::Nothing));
    audit.press_compare("escape");
    assert!(audit.compare.is_none());
    assert_eq!(compare_key("f"), CompareKey::Fit);
    assert_eq!(compare_key("1"), CompareKey::Actual);
    assert_eq!(compare_key("x"), CompareKey::Nothing);
}

#[test]
fn a_pair_lands_only_where_it_is_wanted() {
    let mut audit = finding_audit();
    let key = match audit.open_compare(1) {
        Opening::Build(key) => key,
        _ => panic!("nothing is cached yet"),
    };
    assert!(audit.wants_pair(1, &key));
    audit.open_compare(2);
    assert!(!audit.wants_pair(1, &key));
    audit.land_pair(1, audit.dataset_generation, &key, true);
    assert_eq!(audit.compare.as_ref().unwrap().progress, Progress::Loading);
    assert!(matches!(audit.open_compare(1), Opening::Cached));
    assert_eq!(audit.compare.as_ref().unwrap().progress, Progress::Ready);
    let key = match audit.open_compare(0) {
        Opening::Build(key) => key,
        _ => panic!("another file is not cached"),
    };
    audit.land_pair(0, audit.dataset_generation, &key, false);
    assert_eq!(audit.compare.as_ref().unwrap().progress, Progress::Failed);
}

#[test]
fn the_thumbnail_cache_drops_the_oldest() {
    let mut audit = many(THUMB_CACHE + 10);
    for index in 0..THUMB_CACHE {
        assert!(audit.request_thumb(index));
        assert!(!audit.request_thumb(index), "it is on its way");
        assert_eq!(
            audit.land_thumb(index, audit.dataset_generation),
            (true, None)
        );
    }
    assert_eq!(
        audit.land_thumb(THUMB_CACHE, audit.dataset_generation),
        (true, Some(0))
    );
    assert_eq!(audit.thumbs.len(), THUMB_CACHE);
    assert!(audit.request_thumb(0), "it can be asked for again");
    assert!(!audit.request_thumb(1));
    assert_eq!(
        audit.land_thumb(3, audit.dataset_generation + 1),
        (false, None)
    );
    assert!(!audit.request_thumb(THUMB_CACHE + 10), "there is no such file");
}

#[test]
fn a_newer_request_wins_and_a_failed_one_keeps_the_folder() {
    let mut audit = finding_audit();
    assert!(audit.request_path("/nowhere", false, false).is_none());
    let first = audit.request_path("/a/one", false, true).unwrap();
    assert_eq!(audit.scanning.as_deref(), Some("one"));
    let second = audit.request_path("/", false, true).unwrap();
    assert_eq!(audit.scanning.as_deref(), Some("/"));
    let found = || {
        Some((
            scanned(vec![entry("new.png", 1, 1, 1, ImageFormat::Png)]),
            "/a/one".to_string(),
        ))
    };
    assert!(audit.land_scan(first.request, found(), false).is_none());
    assert!(audit.scanning.is_some());
    assert!(audit.land_scan(second.request, None, false).is_none());
    assert!(audit.scanning.is_none());
    assert_eq!(audit.visible.len(), 3, "the last usable folder stays");
    let third = audit.request_path("/a/one/new.png", true, false).unwrap();
    assert!(third.single);
    let installed = audit.land_scan(third.request, found(), third.single).unwrap();
    assert!(matches!(installed.opening, Opening::Build(_)));
    assert_eq!(audit.root, "/a/one");
    assert_eq!(audit.dataset_generation, 1);
}

#[test]
fn a_new_folder_is_a_new_diff() {
    let mut audit = finding_audit();
    audit.remote.open_browser(true, None);
    let generation = audit.remote.browser.as_ref().unwrap().generation;
    audit.remote.land_listing(generation, Ok(Vec::new()));
    assert_eq!(audit.remote.pair().as_deref(), Some(""));
    let listed = || {
        Ok(vec![Node {
            filename: "/photo.jpg".to_string(),
            kind: "file".to_string(),
            size: 100_000,
        }])
    };
    let paired = audit.remote.pairing_generation;
    audit.land_walk(audit.dataset_generation + 1, paired, listed());
    assert_eq!(audit.remote.counts, None, "a walk of another folder lands nowhere");
    audit.land_walk(audit.dataset_generation, paired + 1, listed());
    assert_eq!(audit.remote.counts, None, "a walk of another pairing lands nowhere");
    audit.land_walk(audit.dataset_generation, paired, listed());
    assert_eq!(audit.remote.counts, Some((2, 0, 0)));
    let running = audit.remote.generation;
    audit.install_dataset(
        scanned(vec![entry("photo.jpg", 1, 1, 5, ImageFormat::Jpeg)]),
        String::new(),
        false,
    );
    assert!(audit.remote.superseded(running));
    assert_eq!(audit.remote.counts, Some((0, 1, 0)));
}

#[test]
fn totals_too_large_to_count_are_refused() {
    let huge = |name: &str| entry(name, 1, 1, u64::MAX, ImageFormat::Png);
    assert!(is_weighable(&vec![huge("a")]));
    assert!(!is_weighable(&vec![huge("a"), entry("b", 1, 1, 1, ImageFormat::Png)]));
}

#[test]
fn tab_goes_round_the_fields() {
    let none = Modifiers::default();
    let shift = Modifiers {
        shift: true,
        ..none
    };
    assert_eq!(form_key("tab", none, 0), FormKey::Focus(1));
    assert_eq!(form_key("tab", none, 1), FormKey::Focus(0));
    assert_eq!(form_key("tab", shift, 0), FormKey::Focus(1));
    assert_eq!(form_key("escape", none, 0), FormKey::Close);
    assert_eq!(form_key("x", none, 0), FormKey::Nothing);
}

#[test]
fn a_run_never_writes_over_a_source() {
    let entries = vec![
        entry("/p/a.png", 1, 1, 5, ImageFormat::Png),
        entry("/p/a.jpg", 1, 1, 5, ImageFormat::Jpeg),
        entry("/p/optimized", 1, 1, 5, ImageFormat::WebP),
        entry("/p/sub/b.webp", 1, 1, 5, ImageFormat::WebP),
        entry("/p/optimizedly/b.webp", 1, 1, 5, ImageFormat::WebP),
    ];
    let tasks = plan_tasks("/p", &entries, &vec![0, 1, 2, 3, 4], Format::WebP);
    let written: Vec<&str> = tasks.iter().map(|task| task.written.as_str()).collect();
    assert_eq!(
        written,
        [
            "/p/optimized/a.webp",
            "/p/optimized/a-2.webp",
            "/p/optimized/optimized.webp",
            "/p/optimized/sub/b.webp",
            "/p/optimized/optimizedly/b.webp",
        ]
    );
    assert!(entries.iter().all(|entry| !written.contains(&entry.path.as_str())));
}
