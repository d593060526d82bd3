use image::{DynamicImage, ImageBuffer, ImageFormat, Luma, LumaA, Rgb, Rgba};
use imageguide::convert::{
    convert_file, encode, encode_avif, encode_webp, has_transparency, output_path, plan_outputs,
    reencode, shrink, Format, MaxEdge, Quality,
};
use imageguide::picture::QUALITY_ONE;
use std::io::Cursor;

fn lossy(value: i64) -> Quality {
    Quality::lossy(value * QUALITY_ONE as i64)
}

/// Deterministic noise: a flat colour or a smooth gradient compresses to nothing.
fn photo(width: u32, height: u32) -> DynamicImage {
    DynamicImage::ImageRgb8(ImageBuffer::from_fn(width, height, |x, y| {
        let mut hash = x.wrapping_mul(2_654_435_761) ^ y.wrapping_mul(2_246_822_519);
        hash ^= hash >> 13;
        hash = hash.wrapping_mul(3_266_489_917);
        Rgb([(hash >> 8) as u8, (hash >> 16) as u8, (hash >> 24) as u8])
    }))
}

fn png(image: &DynamicImage) -> Vec<u8> {
    let mut bytes = Vec::new();
    image
        .write_to(&mut Cursor::new(&mut bytes), ImageFormat::Png)
        .unwrap();
    bytes
}

#[test]
fn lower_quality_produces_fewer_bytes() {
    let image = photo(256, 256);
    let low = encode(&image, Format::WebP, lossy(20)).expect("q20 encodes");
    let high = encode(&image, Format::WebP, lossy(95)).expect("q95 encodes");
    assert!(
        low.len() < high.len(),
        "q20 {} should be smaller than q95 {}",
        low.len(),
        high.len()
    );
}

#[test]
fn output_is_a_real_webp() {
    let encoded = encode(&photo(32, 32), Format::WebP, lossy(80)).unwrap();
    assert_eq!(&encoded[0..4], b"RIFF");
    assert_eq!(&encoded[8..12], b"WEBP");
}

#[test]
fn output_is_a_real_avif() {
    let encoded = encode(&photo(32, 32), Format::Avif, lossy(80)).unwrap();
    assert_eq!(&encoded[4..8], b"ftyp");
    assert_eq!(&encoded[8..12], b"avif");
}

#[test]
fn avif_carries_alpha_in_a_plane_of_its_own() {
    let mut buffer = ImageBuffer::from_pixel(64, 64, Rgba([200u8, 30, 40, 255]));
    let opaque = encode(
        &DynamicImage::ImageRgba8(buffer.clone()),
        Format::Avif,
        lossy(90),
    )
    .unwrap();
    for x in 0..32 {
        for y in 0..64 {
            buffer.put_pixel(x, y, Rgba([200, 30, 40, 0]));
        }
    }
    let encoded = encode(&DynamicImage::ImageRgba8(buffer), Format::Avif, lossy(90))
        .expect("avif encodes");
    let mark = b"urn:mpeg:mpegB:cicp:systems:auxiliary:alpha";
    let marked = |file: &[u8]| file.windows(mark.len()).any(|window| window == mark);
    assert!(marked(&encoded), "the see-through half keeps its plane");
    assert!(!marked(&opaque));
}

#[test]
fn transparency_forces_the_lossless_path() {
    let mut buffer: ImageBuffer<Rgba<u8>, Vec<u8>> =
        ImageBuffer::from_pixel(16, 16, Rgba([10, 20, 30, 255]));
    assert!(!has_transparency(&DynamicImage::ImageRgba8(buffer.clone())));

    buffer.put_pixel(0, 0, Rgba([10, 20, 30, 0]));
    assert!(
        has_transparency(&DynamicImage::ImageRgba8(buffer)),
        "one see-through pixel is enough"
    );
}

#[test]
fn transparency_is_seen_in_every_layout_that_can_carry_it() {
    let luma = |alpha: u8| {
        DynamicImage::ImageLumaA8(ImageBuffer::from_pixel(3, 2, LumaA([7u8, alpha])))
    };
    assert!(has_transparency(&luma(254)));
    assert!(!has_transparency(&luma(255)));
    let deep = |alpha: u16| {
        DynamicImage::ImageRgba16(ImageBuffer::from_pixel(3, 2, Rgba([1u16, 2, 3, alpha])))
    };
    assert!(has_transparency(&deep(65_534)));
    assert!(!has_transparency(&deep(65_535)));
    let grey = DynamicImage::ImageLuma8(ImageBuffer::from_pixel(3, 2, Luma([0u8])));
    assert!(!has_transparency(&grey));
    let deep_grey = |alpha: u16| {
        DynamicImage::ImageLumaA16(ImageBuffer::from_pixel(1, 1, LumaA([0u16, alpha])))
    };
    assert!(has_transparency(&deep_grey(0)));
    assert!(has_transparency(&deep_grey(65_534)));
    assert!(!has_transparency(&deep_grey(65_535)));
    let floating = |alpha: f32| {
        DynamicImage::ImageRgba32F(ImageBuffer::from_pixel(3, 2, Rgba([0f32, 0., 0., alpha])))
    };
    for alpha in [0., 0.5, 0.999_999_9, -1., f32::NAN] {
        assert!(has_transparency(&floating(alpha)), "{alpha}");
    }
    for alpha in [1., 1.5, f32::INFINITY] {
        assert!(!has_transparency(&floating(alpha)), "{alpha}");
    }
    let colours = DynamicImage::ImageRgb32F(ImageBuffer::from_pixel(3, 2, Rgb([0f32, 0., 0.])));
    assert!(!has_transparency(&colours));
}

#[test]
fn transparent_pictures_come_out_the_same_at_any_quality() {
    let mut buffer = ImageBuffer::from_fn(40, 30, |x, y| {
        Rgba([(x * 6) as u8, (y * 8) as u8, ((x * y) % 256) as u8, 255])
    });
    buffer.put_pixel(5, 5, Rgba([1, 2, 3, 40]));
    let image = DynamicImage::ImageRgba8(buffer.clone());
    let lossless = encode(&image, Format::WebP, Quality::lossless()).unwrap();
    assert_eq!(encode(&image, Format::WebP, lossy(10)).unwrap(), lossless);
    let back = image::load_from_memory(&lossless).unwrap().into_rgba8();
    assert_eq!(back.get_pixel(6, 5), buffer.get_pixel(6, 5));
}

#[test]
fn every_alpha_sample_survives() {
    let buffer = ImageBuffer::from_fn(37, 23, |x, y| {
        Rgba([(x * 7) as u8, (y * 11) as u8, 90, ((x * 37 + y * 91) % 256) as u8])
    });
    let image = DynamicImage::ImageRgba8(buffer.clone());
    for quality in [Quality::lossless(), lossy(1), lossy(100)] {
        let file = encode(&image, Format::WebP, quality).unwrap();
        let DynamicImage::ImageRgba8(back) = image::load_from_memory(&file).unwrap() else {
            panic!("the alpha channel is there");
        };
        assert_eq!(back.dimensions(), (37, 23));
        for (pixel, was) in back.pixels().zip(buffer.pixels()) {
            assert_eq!(pixel.0[3], was.0[3]);
        }
    }
}

#[test]
fn lossless_webp_gives_the_pixels_back() {
    let image = photo(20, 12);
    let file = encode(&image, Format::WebP, Quality::lossless()).unwrap();
    let back = image::load_from_memory(&file).unwrap();
    assert_eq!(back.into_rgb8(), image.into_rgb8());
}

#[test]
fn webp_takes_just_the_layouts_libwebp_takes() {
    let grey = DynamicImage::ImageLuma8(ImageBuffer::from_pixel(4, 4, Luma([9u8])));
    assert!(encode(&grey, Format::WebP, lossy(80)).is_none());
    assert!(encode(&grey, Format::Avif, lossy(80)).is_some());
}

#[test]
fn output_path_mirrors_the_source_tree() {
    let path = output_path(
        "/photos",
        "/photos/album/one.PNG",
        "/photos/optimised",
        Format::WebP,
    );
    assert_eq!(path, "/photos/optimised/album/one.webp");

    let avif = output_path(
        "/photos",
        "/photos/album/one.PNG",
        "/photos/optimised",
        Format::Avif,
    );
    assert_eq!(avif, "/photos/optimised/album/one.avif");
}

#[test]
fn output_paths_agree_with_the_standard_library() {
    let sources = [
        "/photos/a.png",
        "/photos/a",
        "/photos/.hidden",
        "/photos/a.tar.gz",
        "/photos/x//y/./b.jpg",
        "rel/d.png",
        "/photos/trailing.d/",
    ];
    for source in sources {
        let relative = std::path::Path::new(source)
            .strip_prefix("/photos")
            .unwrap_or(std::path::Path::new(source));
        let expected = std::path::Path::new("/photos/out")
            .join(relative)
            .with_extension("webp");
        let got = output_path("/photos", source, "/photos/out", Format::WebP);
        assert_eq!(std::path::Path::new(&got), expected, "{source}");
    }
}

#[test]
fn every_output_lies_in_the_output_folder() {
    let sources = [
        ("/elsewhere/a.png", "/photos/optimized/elsewhere/a.webp"),
        ("/photos/../a.png", "/photos/optimized/a.webp"),
        ("../b.png", "/photos/optimized/b.webp"),
        ("./c.png", "/photos/optimized/c.webp"),
        ("/photos", "/photos/optimized"),
        ("/", "/photos/optimized"),
    ];
    for (source, expected) in sources {
        let path = output_path("/photos", source, "/photos/optimized", Format::WebP);
        assert_eq!(path, expected, "{source}");
        assert!(std::path::Path::new(&path).starts_with("/photos/optimized"));
    }
}

#[test]
fn converting_writes_a_smaller_file_and_reports_its_size() {
    let source = png(&photo(400, 400));
    let (converted, file) = convert_file(
        "/shoot",
        "/shoot/big.png",
        "/shoot/optimised",
        Format::WebP,
        lossy(75),
        MaxEdge::full(),
        &source,
    )
    .expect("conversion runs");

    assert_eq!(converted.written, "/shoot/optimised/big.webp");
    assert_eq!(
        converted.bytes,
        file.len() as u64,
        "reported size matches the file"
    );
    assert!(converted.bytes > 0);
    assert_eq!(&file[8..12], b"WEBP");
}

#[test]
fn max_edge_scales_down_and_keeps_the_aspect_ratio() {
    let scaled = MaxEdge(Some(100)).apply(photo(400, 200));
    assert_eq!((scaled.width(), scaled.height()), (100, 50));
}

#[test]
fn max_edge_never_scales_up() {
    let untouched = MaxEdge(Some(4000)).apply(photo(80, 60));
    assert_eq!(
        (untouched.width(), untouched.height()),
        (80, 60),
        "a small source must not be stretched to fill the budget"
    );
    let full = MaxEdge::full().apply(photo(80, 60));
    assert_eq!((full.width(), full.height()), (80, 60));
}

#[test]
fn scaling_twice_is_scaling_once() {
    for (width, height) in [(401, 37), (99, 400), (333, 334)] {
        let once = MaxEdge(Some(64)).apply(photo(width, height));
        let size = (once.width(), once.height());
        assert!(size.0 <= 64 && size.1 <= 64);
        assert_eq!(size.0.max(size.1), 64);
        let twice = MaxEdge(Some(64)).apply(once);
        assert_eq!((twice.width(), twice.height()), size);
    }
}

#[test]
fn a_side_without_pixels_becomes_one() {
    let empty = DynamicImage::ImageRgb8(ImageBuffer::new(0, 500));
    let scaled = MaxEdge(Some(100)).apply(empty);
    assert_eq!((scaled.width(), scaled.height()), (1, 100));
    assert_eq!(scaled.as_bytes().len(), 300);
}

#[test]
fn resizing_is_reported_in_the_result() {
    let source = png(&photo(600, 300));
    let (converted, _) = convert_file(
        "/shoot",
        "/shoot/wide.png",
        "/shoot/out",
        Format::WebP,
        lossy(80),
        MaxEdge(Some(200)),
        &source,
    )
    .expect("conversion runs");
    assert_eq!((converted.width, converted.height), (200, 100));
}

#[test]
fn a_file_that_does_not_decode_is_not_converted() {
    let broken = b"this is not a png".to_vec();
    assert!(reencode("/a.png", &broken, Format::WebP, lossy(80), MaxEdge::full()).is_none());
    assert!(convert_file(
        "/",
        "/a.png",
        "/out",
        Format::Avif,
        lossy(80),
        MaxEdge::full(),
        &broken
    )
    .is_none());
}

#[test]
fn a_mislabelled_file_is_read_by_its_content() {
    let source = png(&photo(10, 6));
    let encoded = reencode("/liar.jpg", &source, Format::WebP, lossy(80), MaxEdge::full())
        .expect("the content says it is a PNG");
    assert_eq!((encoded.width, encoded.height), (10, 6));
}

#[test]
fn quality_is_clamped_and_labelled() {
    assert_eq!(lossy(500).0, Some(100 * QUALITY_ONE));
    assert_eq!(lossy(-3).0, Some(QUALITY_ONE));
    assert_eq!(lossy(80).label(), "q80");
    assert_eq!(Quality::lossless().label(), "lossless");
}

#[test]
fn quality_labels_round_as_floating_point_does() {
    for eighths in 8..=800i64 {
        let value = eighths as f32 / 8.;
        let quality = Quality::lossy(eighths * QUALITY_ONE as i64 / 8);
        assert_eq!(quality.label(), format!("q{}", value.round() as u32));
    }
}

#[test]
fn edges_and_formats_have_their_labels() {
    assert_eq!(MaxEdge::full().label(), "full");
    assert_eq!(MaxEdge(Some(1600)).label(), "1600px");
    let labels: Vec<String> = MaxEdge::presets().iter().map(MaxEdge::label).collect();
    assert_eq!(labels, ["full", "2400px", "1600px", "1000px"]);
    assert_eq!(Format::WebP.label(), "webp");
    assert_eq!(Format::Avif.extension(), "avif");
}

#[test]
fn no_two_outputs_of_a_run_share_a_path() {
    let sources: Vec<String> = [
        "/p/a.png", "/p/a.jpg", "/p/a.gif", "/p/a-2.webp", "/p/b/a.png",
    ]
    .iter()
    .map(|source| source.to_string())
    .collect();
    let planned = plan_outputs("/p", &sources, "/p/optimized", Format::WebP);
    assert_eq!(
        planned,
        [
            "/p/optimized/a.webp",
            "/p/optimized/a-2.webp",
            "/p/optimized/a-3.webp",
            "/p/optimized/a-2-2.webp",
            "/p/optimized/b/a.webp",
        ]
    );
    let outside: Vec<String> = ["/x/a.png", "/x/a.jpg", "../a.png"]
        .iter()
        .map(|source| source.to_string())
        .collect();
    let planned = plan_outputs("/p", &outside, "/p/optimized", Format::Avif);
    assert_eq!(
        planned,
        [
            "/p/optimized/x/a.avif",
            "/p/optimized/x/a-2.avif",
            "/p/optimized/a.avif",
        ]
    );
}

#[test]
fn a_side_too_long_to_scale_gives_nothing() {
    let long = || DynamicImage::new_luma8((1 << 22) + 1, 1);
    let edge = MaxEdge(Some(1000));
    assert!(!edge.scales((1 << 22) + 1, 1));
    assert!(edge.scales(1 << 22, 1));
    assert!(edge.scales(1000, 1000));
    assert!(MaxEdge::full().scales(u32::MAX, u32::MAX));
    assert!(shrink(long(), Format::Avif, lossy(80), edge).is_none());
    let scaled = MaxEdge(Some(4)).apply(DynamicImage::new_luma8(4096, 2048));
    assert_eq!((scaled.width(), scaled.height()), (4, 2));
}

#[test]
fn a_webp_file_keeps_the_size() {
    for quality in [lossy(60), Quality::lossless()] {
        let file = encode_webp(&photo(37, 21), quality).unwrap();
        let back = image::load_from_memory(&file).unwrap();
        assert_eq!((back.width(), back.height()), (37, 21));
    }
    assert!(encode_avif(&photo(8, 6), lossy(60)).is_some());
}
