use image::{DynamicImage, ImageBuffer, Rgb};
use imageguide::number::Number;
use imageguide::scan::{
    format_bytes, format_name, probe, scan, scan_single, Entry, Found, ImageFormat,
};
use std::io::Cursor;

fn sample(width: u32, height: u32) -> Vec<u8> {
    let image = DynamicImage::ImageRgb8(ImageBuffer::from_fn(width, height, |x, y| {
        Rgb([(x % 256) as u8, (y % 256) as u8, 128])
    }));
    let mut bytes = Vec::new();
    image
        .write_to(&mut Cursor::new(&mut bytes), image::ImageFormat::Png)
        .unwrap();
    bytes
}

fn found(path: &str, contents: &Vec<u8>) -> Found {
    Found::read(path.to_string(), contents.len() as u64, contents)
}

fn names(entries: &[Entry]) -> Vec<String> {
    entries.iter().map(|entry| entry.name()).collect()
}

fn entry(path: &str, width: u32, height: u32, bytes: u64, format: ImageFormat) -> Entry {
    Entry {
        path: path.to_string(),
        format,
        width,
        height,
        bytes,
    }
}

fn value(number: Number) -> f64 {
    number.significand as f64 * 2f64.powi(number.exponent as i32)
}

#[test]
fn probes_dimensions_and_format_without_decoding() {
    let contents = sample(40, 25);
    let entry = probe("/probe/sample.png", contents.len() as u64, &contents)
        .expect("png is readable");
    assert_eq!(entry.format, ImageFormat::Png);
    assert_eq!((entry.width, entry.height), (40, 25));
    assert_eq!(entry.bytes, contents.len() as u64);
    assert_eq!(entry.path, "/probe/sample.png");
}

#[test]
fn the_beginning_of_a_file_is_enough_for_its_header() {
    let contents = sample(300, 200);
    let beginning = contents[..200].to_vec();
    let entry = probe("/a.png", contents.len() as u64, &beginning).unwrap();
    assert_eq!((entry.width, entry.height), (300, 200));
}

#[test]
fn the_format_is_read_from_the_content() {
    let contents = sample(8, 8);
    let entry = probe("/liar.webp", 1, &contents).unwrap();
    assert_eq!(entry.format, ImageFormat::Png);
    assert!(entry.extension_lies());
    assert!(!probe("/honest.PNG", 1, &contents).unwrap().extension_lies());
    assert!(!probe("/nameless", 1, &contents).unwrap().extension_lies());
}

#[test]
fn the_bytes_a_file_begins_with_mark_its_format() {
    let image = DynamicImage::ImageRgb8(ImageBuffer::from_pixel(6, 4, Rgb([1u8, 2, 3])));
    let kinds = [
        (image::ImageFormat::Png, ImageFormat::Png),
        (image::ImageFormat::Jpeg, ImageFormat::Jpeg),
        (image::ImageFormat::Gif, ImageFormat::Gif),
        (image::ImageFormat::WebP, ImageFormat::WebP),
        (image::ImageFormat::Tiff, ImageFormat::Tiff),
        (image::ImageFormat::Bmp, ImageFormat::Bmp),
        (image::ImageFormat::Pnm, ImageFormat::Pnm),
        (image::ImageFormat::Ico, ImageFormat::Ico),
        (image::ImageFormat::Qoi, ImageFormat::Qoi),
    ];
    for (written, expected) in kinds {
        let mut contents = Vec::new();
        image.write_to(&mut Cursor::new(&mut contents), written).unwrap();
        for path in ["/a.png", "/a.tga", "/a", "/x\\.tga"] {
            let entry = probe(path, 7, &contents).expect("the content says what it is");
            assert_eq!(entry.format, expected, "{path}");
            assert_eq!((entry.width, entry.height), (6, 4), "{path}");
            assert_eq!((entry.path.as_str(), entry.bytes), (path, 7));
        }
    }
}

#[test]
fn the_extension_speaks_where_the_content_is_silent() {
    // A Targa file begins with no magic number: two by one pixels, uncompressed.
    let mut contents = vec![0u8, 0, 2, 0, 0, 0, 0, 0, 0, 0, 0, 0, 2, 0, 1, 0, 24, 0];
    contents.extend([1, 2, 3, 4, 5, 6]);
    let entry = probe("/old.tga", 24, &contents).expect("known by its extension");
    assert_eq!(entry.format, ImageFormat::Tga);
    assert_eq!((entry.width, entry.height), (2, 1));
    assert!(probe("/old.bin", 24, &contents).is_none());
}

#[test]
fn skips_files_that_are_not_images() {
    let notes = b"not an image".to_vec();
    let files = vec![
        found("/skip/notes.txt", &notes),
        found("/skip/real.png", &sample(8, 8)),
    ];
    let scanned = scan("/skip", &files);
    assert_eq!(scanned.entries.len(), 1);
    assert_eq!(scanned.entries[0].name(), "real.png");
    assert!(scanned.unreadable.is_empty());
}

#[test]
fn scan_reaches_subfolders_and_sorts_heaviest_first() {
    let files = vec![
        found("/walk/small.png", &sample(8, 8)),
        found("/walk/nested/big.png", &sample(300, 300)),
    ];
    let entries = scan("/walk", &files).entries;
    assert_eq!(entries.len(), 2);
    assert_eq!(entries[0].name(), "big.png", "heaviest file sorts first");
    assert!(entries[0].bytes > entries[1].bytes);
}

#[test]
fn files_of_one_weight_stay_as_they_were_found() {
    let contents = sample(4, 4);
    let files: Vec<Found> = ["/w/c.png", "/w/a.png", "/w/b.png"]
        .iter()
        .map(|path| found(path, &contents))
        .collect();
    assert_eq!(
        names(&scan("/w", &files).entries),
        ["c.png", "a.png", "b.png"]
    );
}

#[test]
fn raw_output_and_unreadable_files_are_set_apart() {
    let image = sample(4, 4);
    let noise = b"noise".to_vec();
    let files = vec![
        found("/shoot/one.NEF", &image),
        found("/shoot/two.cr3", &noise),
        found("/shoot/optimized/one.webp", &image),
        found("/shoot/optimized/deep/two.webp", &noise),
        found("/shoot/broken.jpg", &noise),
        found("/shoot/good.png", &image),
        found("/shoot/readme.md", &noise),
    ];
    let scanned = scan("/shoot", &files);
    assert_eq!(names(&scanned.entries), ["good.png"]);
    assert_eq!(scanned.skipped_raw, 2);
    assert_eq!(scanned.existing_output, 2);
    assert_eq!(scanned.unreadable, ["/shoot/broken.jpg"]);
}

#[test]
fn a_single_file_opens_under_its_folder() {
    let contents = sample(4, 4);
    let (scanned, root) = scan_single(&found("/shoot/day/one.png", &contents)).unwrap();
    assert_eq!(names(&scanned.entries), ["one.png"]);
    assert_eq!(root, "/shoot/day");
    assert_eq!(scan_single(&found("one.png", &contents)).unwrap().1, "");
    assert!(scan_single(&found("/shoot/note.txt", &b"text".to_vec())).is_none());
}

#[test]
fn bytes_per_pixel_is_zero_for_an_empty_image() {
    let entry = entry("x.png", 0, 0, 100, ImageFormat::Png);
    assert_eq!(value(entry.bytes_per_pixel()), 0.);
}

#[test]
fn densities_are_those_of_single_precision() {
    for (width, height, bytes) in [
        (1000u32, 1000u32, 100_000u64),
        (3, 7, 1),
        (100, 100, 300_000),
        (65_535, 65_533, 123_456_789_123),
        (u32::MAX, u32::MAX, u64::MAX),
        (1, 1, 0),
    ] {
        let pixels = width as u64 * height as u64;
        let expected = bytes as f32 / pixels as f32;
        let got = entry("x.png", width, height, bytes, ImageFormat::Png).bytes_per_pixel();
        assert_eq!(value(got), expected as f64);
    }
}

#[test]
fn sizes_read_in_the_nearest_unit() {
    assert_eq!(format_bytes(512), "512 B");
    assert_eq!(format_bytes(2048), "2.0 KB");
    assert_eq!(format_bytes(5 * (1 << 20)), "5.0 MB");
}

#[test]
fn sizes_round_as_the_formatter_does() {
    let cases = [
        0u64,
        1023,
        1024,
        1075,
        1536,
        1_048_575,
        1_048_576,
        1_100_001,
        1_073_741_823,
        1_073_741_824,
        3_221_225_472,
        123_456_789_012,
        u64::MAX,
        1024 + 51,
        1024 + 52,
        1024 * 1024 * 3 + 52_429,
    ];
    for bytes in cases {
        let expected = if bytes >= 1 << 30 {
            format!("{:.1} GB", bytes as f64 / (1u64 << 30) as f64)
        } else if bytes >= 1 << 20 {
            format!("{:.1} MB", bytes as f64 / (1u64 << 20) as f64)
        } else if bytes >= 1 << 10 {
            format!("{:.1} KB", bytes as f64 / (1u64 << 10) as f64)
        } else {
            format!("{bytes} B")
        };
        assert_eq!(format_bytes(bytes), expected);
    }
}

#[test]
fn formats_have_short_names() {
    assert_eq!(format_name(ImageFormat::Jpeg), "JPEG");
    assert_eq!(format_name(ImageFormat::WebP), "WebP");
    assert_eq!(format_name(ImageFormat::Ico), "ico");
    assert_eq!(format_name(ImageFormat::OpenExr), "exr");
    assert_eq!(format_name(ImageFormat::Qoi), "qoi");
}

#[test]
fn a_path_without_a_name_has_none() {
    assert_eq!(entry("/", 1, 1, 1, ImageFormat::Png).name(), "");
    assert_eq!(entry("/a/..", 1, 1, 1, ImageFormat::Png).name(), "");
    assert_eq!(entry("/a/b/", 1, 1, 1, ImageFormat::Png).name(), "b");
}
