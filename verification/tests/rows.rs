use imageguide::number::Number;
use imageguide::rows::{band, compare_entries, view, Band, Column, Finding, Sort};
use imageguide::scan::{Entry, ImageFormat};

fn entry(name: &str, width: u32, height: u32, bytes: u64, format: ImageFormat) -> Entry {
    Entry {
        path: name.to_string(),
        format,
        width,
        height,
        bytes,
    }
}

fn names(entries: &[Entry]) -> Vec<String> {
    entries.iter().map(|entry| entry.name()).collect()
}

fn sort_entries(entries: &mut [Entry], sort: Sort) {
    entries.sort_by(|a, b| compare_entries(a, b, sort));
}

fn by(column: Column, descending: bool) -> Sort {
    Sort { column, descending }
}

#[test]
fn weight_sorts_heaviest_first_when_descending() {
    let mut entries = vec![
        entry("small.png", 10, 10, 100, ImageFormat::Png),
        entry("big.png", 10, 10, 900, ImageFormat::Png),
        entry("mid.png", 10, 10, 500, ImageFormat::Png),
    ];
    sort_entries(&mut entries, by(Column::Weight, true));
    assert_eq!(names(&entries), ["big.png", "mid.png", "small.png"]);
}

#[test]
fn name_sorting_ignores_case() {
    let mut entries = vec![
        entry("Zebra.png", 1, 1, 1, ImageFormat::Png),
        entry("apple.png", 1, 1, 1, ImageFormat::Png),
    ];
    sort_entries(&mut entries, by(Column::Name, false));
    assert_eq!(names(&entries), ["apple.png", "Zebra.png"]);
}

#[test]
fn ties_fall_back_to_the_filename() {
    let mut entries = vec![
        entry("c.png", 4, 4, 200, ImageFormat::Png),
        entry("a.png", 4, 4, 200, ImageFormat::Png),
        entry("b.png", 4, 4, 200, ImageFormat::Png),
    ];
    sort_entries(&mut entries, by(Column::Density, false));
    assert_eq!(names(&entries), ["a.png", "b.png", "c.png"]);
}

#[test]
fn pixels_sorts_on_area_not_width() {
    let mut entries = vec![
        entry("wide.png", 1000, 10, 1, ImageFormat::Png),
        entry("square.png", 200, 200, 1, ImageFormat::Png),
    ];
    sort_entries(&mut entries, by(Column::Pixels, true));
    assert_eq!(names(&entries), ["square.png", "wide.png"]);
}

#[test]
fn formats_sort_by_their_short_names() {
    let mut entries = vec![
        entry("a", 1, 1, 1, ImageFormat::WebP),
        entry("b", 1, 1, 1, ImageFormat::Jpeg),
        entry("c", 1, 1, 1, ImageFormat::Ico),
    ];
    sort_entries(&mut entries, by(Column::Format, false));
    assert_eq!(names(&entries), ["b", "a", "c"]);
}

#[test]
fn a_view_filters_finds_and_sorts() {
    let entries = vec![
        entry("/x/Straße.png", 100, 100, 300_000, ImageFormat::Png),
        entry("/x/STRASSE.jpg", 100, 100, 10, ImageFormat::Jpeg),
        entry("/straße/other.jpg", 10, 10, 20, ImageFormat::Jpeg),
        entry("/x/liar.gif", 10, 10, 5, ImageFormat::Png),
    ];
    let weight = by(Column::Weight, true);
    assert_eq!(view(&entries, "", None, weight), [0, 2, 1, 3]);
    assert_eq!(view(&entries, "STRAß", None, weight), [0]);
    assert_eq!(view(&entries, "stra", None, weight), [0, 1]);
    assert_eq!(view(&entries, "", Some(Finding::Mislabelled), weight), [3]);
    assert_eq!(view(&entries, "liar", Some(Finding::Heavy), weight).len(), 0);
}

#[test]
fn densities_fall_into_three_bands() {
    let of = |bytes: u64| band(&entry("x", 10, 10, bytes, ImageFormat::Png));
    assert_eq!(of(50), Band::Good);
    assert_eq!(of(51), Band::Suspicious);
    assert_eq!(of(150), Band::Suspicious);
    assert_eq!(of(151), Band::Heavy);
    assert!(!Finding::Heavy.holds(&entry("x", 10, 10, 150, ImageFormat::Png)));
    let half: Number = entry("x", 10, 10, 50, ImageFormat::Png).bytes_per_pixel();
    assert_eq!((half.significand, half.exponent), (0x80_0000, -24));
}

#[test]
fn rows_compare_both_ways_alike() {
    let entries = [
        entry("b.png", 10, 10, 100, ImageFormat::Png),
        entry("B.png", 5, 20, 300, ImageFormat::WebP),
        entry("a.gif", 1, 1, 100, ImageFormat::Gif),
        entry("b.png", 10, 10, 100, ImageFormat::Png),
    ];
    let columns = [
        Column::Name,
        Column::Format,
        Column::Pixels,
        Column::Density,
        Column::Weight,
    ];
    for column in columns {
        for descending in [false, true] {
            let sort = by(column, descending);
            for a in &entries {
                for b in &entries {
                    let order = compare_entries(a, b, sort);
                    assert_eq!(order, compare_entries(b, a, sort).reverse());
                    for c in &entries {
                        if order.is_le() && compare_entries(b, c, sort).is_le() {
                            assert!(compare_entries(a, c, sort).is_le());
                        }
                    }
                }
            }
        }
    }
}
