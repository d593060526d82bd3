use image::{DynamicImage, ImageBuffer, ImageFormat, Luma, Rgba};
use imageguide::thumbs::{draw, load, to_bgra, THUMB_EDGE};
use std::io::Cursor;

fn png(image: &DynamicImage) -> Vec<u8> {
    let mut bytes = Vec::new();
    image
        .write_to(&mut Cursor::new(&mut bytes), ImageFormat::Png)
        .unwrap();
    bytes
}

#[test]
fn swaps_red_and_blue_and_leaves_alpha_alone() {
    assert_eq!(to_bgra(vec![255u8, 10, 0, 200]), vec![0, 10, 255, 200]);
}

#[test]
fn swapping_twice_gives_the_samples_back() {
    let samples: Vec<u8> = (0..40).collect();
    assert_eq!(to_bgra(to_bgra(samples.clone())), samples);
}

#[test]
fn scales_to_fit_the_box_and_keeps_the_aspect_ratio() {
    let wide = DynamicImage::ImageRgba8(ImageBuffer::from_pixel(400, 100, Rgba([1u8, 2, 3, 255])));
    let thumb = load("wide.png", &png(&wide), 96).expect("png decodes");
    assert_eq!(thumb.width, 96, "long edge fills the box");
    assert_eq!(thumb.height, 24, "4:1 aspect ratio is preserved");
    assert_eq!(thumb.bgra.len(), 96 * 24 * 4);
    assert_eq!(&thumb.bgra[..4], &[3, 2, 1, 255]);
}

#[test]
fn any_edge_gives_a_thumbnail() {
    let wide = DynamicImage::ImageRgba8(ImageBuffer::from_pixel(400, 100, Rgba([1u8, 2, 3, 255])));
    let file = png(&wide);
    let dot = load("wide.png", &file, 0).unwrap();
    assert_eq!((dot.width, dot.height), (1, 1));
    assert_eq!(dot.bgra, [3, 2, 1, 255]);
    let large = load("wide.png", &file, 1000).unwrap();
    assert_eq!((large.width, large.height), (1000, 250));
}

#[test]
fn more_than_can_be_added_up_has_no_thumbnail() {
    let white = |width: u32, height: u32| {
        png(&DynamicImage::ImageLuma8(ImageBuffer::from_pixel(width, height, Luma([255u8]))))
    };
    assert!(load("white.png", &white(5000, 5000), 1).is_none());
    let grey = load("white.png", &white(4000, 4000), 1).unwrap();
    assert_eq!(grey.bgra, [255, 255, 255, 255]);
    let strip = |width: u32, height: u32| {
        png(&DynamicImage::ImageLuma16(ImageBuffer::from_pixel(width, height, Luma([65_535u16]))))
    };
    assert!(load("strip.png", &strip(100_000, 200), 240).is_none());
    let thumb = load("strip.png", &strip(10_000, 200), 240).unwrap();
    assert_eq!((thumb.width, thumb.height), (240, 5));
    assert!(thumb.bgra.iter().all(|sample| *sample == 255));
}

#[test]
fn a_file_that_is_not_an_image_is_skipped_rather_than_fatal() {
    assert!(load("broken.png", &b"this is not a png".to_vec(), 96).is_none());
}

#[test]
fn a_drawing_holds_every_pixel_of_the_picture() {
    let image = DynamicImage::ImageRgb8(ImageBuffer::from_fn(5, 3, |x, y| {
        image::Rgb([x as u8, y as u8, 9])
    }));
    let drawing = draw(&image);
    assert_eq!((drawing.width, drawing.height), (5, 3));
    assert_eq!(drawing.bgra.len(), 60);
    assert_eq!(&drawing.bgra[4..8], &[9, 0, 1, 255]);
    assert_eq!(THUMB_EDGE, 240);
}
