use imageguide::layout::{
    gallery_layout, restored_window_size, AuditTable, Reading, TableColumn, GALLERY_BORDER,
    GALLERY_MAX_COLUMNS, GALLERY_PADDING, PIXEL, ROOT_BORDER, ROOT_PADDING, TILE_GAP, TILE_MAX,
    TILE_MIN, WINDOW_DEFAULT_HEIGHT, WINDOW_DEFAULT_WIDTH, WINDOW_MIN_HEIGHT, WINDOW_MIN_WIDTH,
    W_NAME_MIN,
};
use imageguide::number::Number;
use imageguide::rows::{Column, Sort};
use imageguide::thumbs::THUMB_EDGE;

fn px(value: f32) -> i64 {
    (value as f64 * PIXEL as f64) as i64
}

/// A single-precision number by its significand and exponent.
fn parts(value: f32) -> Number {
    if value == 0. {
        return Number {
            significand: 0,
            exponent: 0,
        };
    }
    let bits = value.abs().to_bits();
    let mut significand = (bits & 0x7f_ffff) as u64;
    let mut exponent = (bits >> 23) as i128 - 150;
    if bits >> 23 == 0 {
        exponent += 1;
        while significand < 0x80_0000 {
            significand <<= 1;
            exponent -= 1;
        }
    } else {
        significand |= 0x80_0000;
    }
    Number {
        significand,
        exponent,
    }
}

fn reading(value: f32) -> Reading {
    if value.is_finite() {
        Reading::Finite {
            negative: value < 0.,
            size: parts(value),
        }
    } else {
        Reading::NotFinite
    }
}

fn restored(width: Option<f32>, height: Option<f32>) -> (f32, f32) {
    let (width, height) = restored_window_size(width.map(reading), height.map(reading));
    let value = |n: Number| n.significand as f32 * 2f32.powi(n.exponent as i32);
    (value(width), value(height))
}

#[test]
fn restored_window_size_defaults_invalid_values_and_clamps_finite_values() {
    for invalid in [
        None,
        Some(f32::NAN),
        Some(f32::INFINITY),
        Some(f32::NEG_INFINITY),
    ] {
        assert_eq!(
            restored(invalid, invalid),
            (WINDOW_DEFAULT_WIDTH as f32, WINDOW_DEFAULT_HEIGHT as f32)
        );
    }
    assert_eq!(
        restored(Some(600.), Some(400.)),
        (WINDOW_MIN_WIDTH as f32, WINDOW_MIN_HEIGHT as f32)
    );
    assert_eq!(restored(Some(1100.), Some(720.)), (1100., 720.));
}

#[test]
fn restored_sizes_are_the_larger_of_two_floats() {
    for value in [0., -1000., 759.99994, 760., 760.00006, 1234.567, 1e30, f32::MIN_POSITIVE, 1e-45]
    {
        assert_eq!(restored(Some(value), None).0, value.max(760.));
    }
}

fn columns(width: f32, left: f32, right: f32) -> usize {
    gallery_layout(px(width), px(left), px(right), 100).columns
}

#[test]
fn gallery_geometry_accounts_for_root_chrome_and_supported_widths() {
    assert_eq!(columns(760., 0., 0.), 4);
    assert_eq!(columns(760., 21., 21.), 3);
    assert_eq!(columns(760., 0., 21.), 3);

    assert_eq!(columns(760., 22., 22.), 3);
    assert_eq!(columns(873., 22., 22.), 4);
    assert_eq!(columns(900., 22., 22.), 4);
    assert_eq!(columns(1100., 22., 22.), 5);
}

#[test]
fn gallery_changes_column_only_at_each_reachable_threshold() {
    let root = 22 * PIXEL;
    for columns in 2..=GALLERY_MAX_COLUMNS {
        let threshold = 2 * root
            + 2 * (ROOT_PADDING + ROOT_BORDER + GALLERY_PADDING + GALLERY_BORDER)
            + columns as i64 * TILE_MIN
            + (columns as i64 - 1) * TILE_GAP;
        assert_eq!(
            gallery_layout(threshold - PIXEL, root, root, 100).columns,
            columns - 1
        );
        assert_eq!(
            gallery_layout(threshold - 1, root, root, 100).columns,
            columns - 1
        );
        assert_eq!(
            gallery_layout(threshold, root, root, 100).columns,
            columns
        );
    }
}

#[test]
fn gallery_bands_cover_each_entry_once_for_one_three_and_five_columns() {
    for columns in [1usize, 3, 5] {
        let chrome = 2 * (ROOT_PADDING + ROOT_BORDER + GALLERY_PADDING + GALLERY_BORDER);
        let width = chrome + columns as i64 * TILE_MIN + (columns as i64 - 1) * TILE_GAP;
        let layout = gallery_layout(width, 0, 0, 13);
        assert_eq!(layout.columns, columns);
        assert_eq!(layout.rows, 13_usize.div_ceil(columns));
        let covered: Vec<usize> = (0..layout.rows)
            .flat_map(|band| {
                let (first, last) = layout.band_range(band);
                first..last
            })
            .collect();
        assert_eq!(covered, (0..13).collect::<Vec<_>>());
        assert_eq!(layout.band_range(usize::MAX), (13, 13));
    }
}

#[test]
fn tiles_are_as_wide_as_single_precision_makes_them() {
    for width in (300..1400).map(|step| step as f32 + 0.25) {
        let available = (width - 46.).max(0.);
        let columns = (((available + 8.) / 176.) as usize).clamp(1, 5);
        let tile =
            ((available - (columns.saturating_sub(1) as f32 * 8.)) / columns as f32).clamp(168., 224.);
        let layout = gallery_layout(px(width), 0, 0, 9);
        assert_eq!(layout.columns, columns);
        assert_eq!(layout.tile as f64 / PIXEL as f64, tile as f64, "{width}");
    }
}

#[test]
fn the_gallery_never_asks_for_more_than_a_thumbnail_holds() {
    let widest = TILE_MAX - 16 * PIXEL;
    assert!(widest <= THUMB_EDGE as i64 * PIXEL);
}

#[test]
fn table_layout_keeps_decision_columns_at_compact_width() {
    let (compact, compact_name, compact_columns) = AuditTable::layout(760 * PIXEL, true);
    assert!(compact);
    assert!(compact_name >= W_NAME_MIN);
    assert!(compact_columns.contains(&TableColumn::Weight));
    assert!(compact_columns.contains(&TableColumn::Result));
    assert!(compact_columns.contains(&TableColumn::Density));

    let (wide, wide_name, wide_columns) = AuditTable::layout(1100 * PIXEL, true);
    assert!(!wide);
    assert!(wide_name > compact_name);
    assert!(wide_columns.contains(&TableColumn::Density));
    assert!(wide_columns.contains(&TableColumn::Weight));
    assert!(wide_columns.contains(&TableColumn::Result));
}

#[test]
fn the_shown_columns_fill_the_window() {
    let sort = Sort {
        column: Column::Weight,
        descending: true,
    };
    for width in [800, 899, 900, 1300] {
        for show_result in [false, true] {
            let mut table = AuditTable::new(500 * PIXEL);
            table.set_viewport_width(width * PIXEL, show_result);
            let shown: i64 = (0..table.columns_count())
                .map(|index| table.column(index, sort).unwrap().width)
                .sum();
            assert_eq!(shown + 30 * PIXEL, width * PIXEL);
            assert_eq!(table.columns.contains(&TableColumn::Sync), width >= 900);
        }
    }
    let narrow = AuditTable::new(100 * PIXEL);
    assert_eq!(narrow.name_width, W_NAME_MIN);
    assert_eq!(narrow.columns_count(), 7);
}

#[test]
fn the_arrow_stands_on_the_column_the_list_is_ordered_by() {
    let table = AuditTable::new(1000 * PIXEL);
    let sort = Sort {
        column: Column::Pixels,
        descending: false,
    };
    let arrows: Vec<(&str, Option<bool>)> = (0..table.columns.len())
        .map(|index| table.column(index, sort).unwrap())
        .map(|spec| (spec.key, spec.arrow))
        .filter(|(_, arrow)| arrow.is_some())
        .collect();
    assert_eq!(arrows, [("pixels", Some(false))]);
    assert!(table.column(99, sort).is_none());
    assert_eq!(table.sort_at(2), Some(Column::Name));
    assert_eq!(table.sort_at(0), None);
    assert_eq!(table.sort_at(99), None);
    let name = table.column(2, sort).unwrap();
    assert!(name.resizable && name.sortable);
    assert_eq!((name.title, name.min_width), ("Name", Some(W_NAME_MIN)));
}
