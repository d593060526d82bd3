use image::{DynamicImage, ImageBuffer, ImageFormat, Rgb};
use imageguide::compare::{build, saving, Pair};
use imageguide::convert::{Format, MaxEdge, Quality};
use imageguide::number::Number;
use imageguide::picture::QUALITY_ONE;
use imageguide::thumbs::Drawing;
use std::io::Cursor;

fn value(number: Number) -> f64 {
    number.significand as f64 * 2f64.powi(number.exponent as i32)
}

fn sample(width: u32, height: u32) -> Vec<u8> {
    let image = DynamicImage::ImageRgb8(ImageBuffer::from_fn(width, height, |x, y| {
        Rgb([(x * 2 % 256) as u8, (y * 3 % 256) as u8, 90])
    }));
    let mut bytes = Vec::new();
    image
        .write_to(&mut Cursor::new(&mut bytes), ImageFormat::Png)
        .unwrap();
    bytes
}

fn q70() -> Quality {
    Quality::lossy(70 * QUALITY_ONE as i64)
}

#[test]
fn both_sides_decode_at_the_source_dimensions() {
    let pair = build(
        "sample.png",
        &sample(120, 80),
        Format::WebP,
        q70(),
        MaxEdge::full(),
    )
    .expect("pair builds");

    assert_eq!((pair.width, pair.height), (120, 80));
    assert_eq!(pair.original.width, 120);
    assert_eq!(pair.converted.width, 120);
    assert_eq!(pair.converted.height, 80);
    assert!(pair.converted_bytes > 0);
}

#[test]
fn both_sides_are_scaled_to_the_edge() {
    let pair = build(
        "sample.png",
        &sample(120, 80),
        Format::WebP,
        q70(),
        MaxEdge(Some(60)),
    )
    .unwrap();
    assert_eq!((pair.width, pair.height), (60, 40));
    assert_eq!(pair.original.bgra.len(), 60 * 40 * 4);
    assert_eq!(pair.converted.bgra.len(), 60 * 40 * 4);
}

#[test]
fn a_lossless_pair_shows_the_same_picture_twice() {
    let pair = build(
        "sample.png",
        &sample(9, 7),
        Format::WebP,
        Quality::lossless(),
        MaxEdge::full(),
    )
    .unwrap();
    assert_eq!(pair.original.bgra, pair.converted.bgra);
    assert_eq!(&pair.original.bgra[..4], &[90, 0, 0, 255]);
}

#[test]
fn a_broken_file_has_no_pair() {
    let broken = b"not an image".to_vec();
    assert!(build("x.png", &broken, Format::WebP, q70(), MaxEdge::full()).is_none());
}

fn drawing() -> Drawing {
    Drawing {
        width: 1,
        height: 1,
        bgra: vec![0, 0, 0, 255],
    }
}

#[test]
fn saving_is_reported_against_the_source_size() {
    let pair = Pair {
        original: drawing(),
        converted: drawing(),
        converted_bytes: 250,
        width: 1,
        height: 1,
    };

    let saved = pair.saving_percent(1000);
    assert!(!saved.negative);
    assert_eq!(value(saved.size), 75.);
    let nothing = pair.saving_percent(0);
    assert!(!nothing.negative);
    assert_eq!(value(nothing.size), 0.);
    assert!(
        pair.saving_percent(100).negative,
        "growth reads as negative"
    );
}

#[test]
fn savings_are_those_of_single_precision() {
    let cases = [
        (1u64, 0u64),
        (3, 1),
        (1000, 999),
        (16_777_217, 16_777_216),
        (123_456_789_012, 98_765_432),
        (7, 1_000_000),
        (u64::MAX, 1),
    ];
    for (before, after) in cases {
        let expected = (before as f32 - after as f32) / before as f32 * 100.;
        let got = saving(before, after);
        assert_eq!(got.negative, expected < 0.);
        assert_eq!(value(got.size), expected.abs() as f64, "{before} {after}");
    }
}
