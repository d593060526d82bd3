//! Re-encode an image, on this machine.
//!
//! Trading a little quality for a lot of bytes is the whole point, so WebP is written
//! lossy unless lossless was asked for or the picture has transparency to lose. AVIF
//! keeps its transparency in a plane of its own and needs no such care.

use crate::number;
use crate::paths;
use crate::picture;
use crate::picture::{Layout, QUALITY_ONE};
use crate::text;
use image::DynamicImage;
use vstd::prelude::*;

verus! {

/// Encoder quality, 1 to 100, in units of `1 / QUALITY_ONE`. `None` means lossless.
#[derive(Clone, Copy, Debug, PartialEq, Eq, Structural)]
pub struct Quality(pub Option<u32>);

/// A quality moved into the range from 1 to 100.
pub open spec fn clamped(units: i64) -> u32 {
    if units < QUALITY_ONE {
        QUALITY_ONE
    } else if units > 100 * QUALITY_ONE {
        (100 * QUALITY_ONE) as u32
    } else {
        units as u32
    }
}

impl Quality {
    /// The quality lies from 1 to 100.
    pub open spec fn in_range(self) -> bool {
        self.0 matches Some(units) ==> QUALITY_ONE <= units <= 100 * QUALITY_ONE
    }

    /// A quality from 1 to 100; anything outside is moved to the nearer end.
    pub fn lossy(units: i64) -> (out: Self)
        ensures
            out.in_range(),
            out.0 == Some(clamped(units)),
    {
        if units < QUALITY_ONE as i64 {
            Quality(Some(QUALITY_ONE))
        } else if units > 100 * QUALITY_ONE as i64 {
            Quality(Some(100 * QUALITY_ONE))
        } else {
            Quality(Some(units as u32))
        }
    }

    /// Nothing is lost.
    pub fn lossless() -> (out: Self)
        ensures
            out.0 is None,
            out.in_range(),
    {
        Quality(None)
    }

    /// The quality as the window shows it: a whole number, halves rounded up.
    pub open spec fn label_text(self) -> Seq<char> {
        match self.0 {
            None => "lossless"@,
            Some(units) => "q"@ + text::decimal(
                ((units + QUALITY_ONE / 2) / (QUALITY_ONE as int)) as nat,
            ),
        }
    }

    /// The quality as the window shows it.
    pub fn label(&self) -> (out: String)
        ensures
            out@ == self.label_text(),
    {
        match self.0 {
            None => "lossless".to_string(),
            Some(units) => {
                let rounded: u64 = (units as u64 + QUALITY_ONE as u64 / 2) / QUALITY_ONE as u64;
                text::glued("q", text::decimal_of(rounded as u128).as_str())
            },
        }
    }
}

/// Longest edge of the exported image. `None` leaves the source alone.
///
/// This is where most of the weight actually is. Re-encoding a 6400px photo as AVIF
/// still hands back a 6400px photo, which is the wrong image for a web page however
/// well it is compressed.
#[derive(Clone, Copy, Debug, PartialEq, Eq, Structural)]
pub struct MaxEdge(pub Option<u32>);

/// The picture is already inside the edge.
pub open spec fn is_inside(max_edge: MaxEdge, width: u32, height: u32) -> bool {
    match max_edge.0 {
        None => true,
        Some(edge) => width <= edge && height <= edge,
    }
}

/// The picture can be brought inside the edge, or is there already.
pub open spec fn is_scalable(max_edge: MaxEdge, width: u32, height: u32) -> bool {
    is_inside(max_edge, width, height) || picture::has_resize(width, height, max_edge.0->0)
}

/// What scaling a picture down to an edge can give, by its contents before and after:
/// the same picture where it is inside the edge.
pub open spec fn can_scale(
    max_edge: MaxEdge,
    before: (u32, u32, Layout, Seq<u32>),
    after: (u32, u32, Layout, Seq<u32>),
) -> bool {
    if is_inside(max_edge, before.0, before.1) {
        after == before
    } else {
        let edge = max_edge.0->0;
        let longest = picture::longest(before.0, before.1);
        &&& after.0 == picture::fitted(before.0 as nat, longest, edge as nat)
        &&& after.1 == picture::fitted(before.1 as nat, longest, edge as nat)
        &&& after.2 == before.2
        &&& picture::resized(before.0, before.1, before.2, before.3, edge).contains(after.3)
    }
}

impl MaxEdge {
    /// No limit.
    pub fn full() -> (out: Self)
        ensures
            out.0 is None,
    {
        MaxEdge(None)
    }

    /// The sizes offered in the window, in order.
    pub fn presets() -> (out: Vec<MaxEdge>)
        ensures
            out@ == seq![
                MaxEdge(None),
                MaxEdge(Some(2400u32)),
                MaxEdge(Some(1600u32)),
                MaxEdge(Some(1000u32)),
            ],
    {
        vec![MaxEdge(None), MaxEdge(Some(2400)), MaxEdge(Some(1600)), MaxEdge(Some(1000))]
    }

    /// The edge as the window shows it.
    pub open spec fn label_text(self) -> Seq<char> {
        match self.0 {
            None => "full"@,
            Some(edge) => text::decimal(edge as nat) + "px"@,
        }
    }

    /// The edge as the window shows it.
    pub fn label(&self) -> (out: String)
        ensures
            out@ == self.label_text(),
    {
        match self.0 {
            None => "full".to_string(),
            Some(edge) => text::glued(text::decimal_of(edge as u128).as_str(), "px"),
        }
    }

    /// Whether a picture of this size can be brought inside the edge.
    pub fn scales(&self, width: u32, height: u32) -> (out: bool)
        ensures
            out == is_scalable(*self, width, height),
    {
        match self.0 {
            None => true,
            Some(edge) => width <= edge && height <= edge || picture::resizable(
                width,
                height,
                edge,
            ),
        }
    }

    /// Scale `image` down to fit. Never scales up: an 800px source asked to fit 2000px
    /// is already inside the budget, and stretching it would invent detail.
    pub fn apply(&self, image: DynamicImage) -> (out: DynamicImage)
        requires
            is_scalable(*self, picture::picture_width(image), picture::picture_height(image)),
        ensures
            can_scale(*self, picture::contents(image), picture::contents(out)),
            is_inside(*self, picture::picture_width(image), picture::picture_height(image)) ==> out
                == image,
            picture::is_exact(image) ==> picture::is_exact(out),
            self.0 is None ==> out == image,
            self.0 matches Some(edge) ==> edge > 0 && picture::picture_width(image) > 0
                && picture::picture_height(image) > 0 ==> {
                &&& picture::picture_width(out) <= edge
                &&& picture::picture_height(out) <= edge
                &&& (out == image) == (picture::picture_width(image) <= edge
                    && picture::picture_height(image) <= edge)
            },
    {
        let (width, height) = (picture::width(&image), picture::height(&image));
        proof {
            if self.0 is Some && self.0->0 > 0 && width > 0 && height > 0 {
                let longest = picture::longest(width, height);
                picture::lemma_fitted(width as nat, longest, self.0->0 as nat);
                picture::lemma_fitted(height as nat, longest, self.0->0 as nat);
            }
        }
        match self.0 {
            None => image,
            Some(edge) => {
                if width <= edge && height <= edge {
                    image
                } else {
                    picture::resize(&image, edge)
                }
            },
        }
    }
}

/// The container to write.
#[derive(Clone, Copy, Debug, PartialEq, Eq, Structural)]
pub enum Format {
    WebP,
    Avif,
}

/// The extension of a container, which is also its label.
pub open spec fn format_text(format: Format) -> Seq<char> {
    match format {
        Format::WebP => "webp"@,
        Format::Avif => "avif"@,
    }
}

impl Format {
    /// The extension files of this container carry.
    pub fn extension(&self) -> (out: &'static str)
        ensures
            out@ == format_text(*self),
    {
        match self {
            Format::WebP => "webp",
            Format::Avif => "avif",
        }
    }

    /// The container as the window shows it.
    pub fn label(&self) -> (out: &'static str)
        ensures
            out@ == format_text(*self),
    {
        match self {
            Format::WebP => "webp",
            Format::Avif => "avif",
        }
    }
}

/// The result of re-encoding one file.
#[derive(Debug)]
pub struct Converted {
    pub written: String,
    pub bytes: u64,
    /// Dimensions actually written, which differ from the source when resizing.
    pub width: u32,
    pub height: u32,
}

/// The layout has an alpha channel.
pub open spec fn has_alpha(layout: Layout) -> bool {
    ||| layout is LumaA8
    ||| layout is Rgba8
    ||| layout is LumaA16
    ||| layout is Rgba16
    ||| layout is Rgba32F
}

/// An alpha sample that hides what is behind it: the largest there is, and of floats, by
/// their bits, one and all above it.
pub open spec fn is_opaque(layout: Layout, alpha: u32) -> bool {
    if picture::is_bytes(layout) {
        alpha == 255
    } else if picture::is_words(layout) {
        alpha == 65535
    } else {
        0x3f80_0000 <= alpha <= 0x7f80_0000
    }
}

/// The sample of a pixel at an offset.
pub open spec fn sample_at(samples: Seq<u32>, pixel: int, width: nat, offset: int) -> u32 {
    samples[pixel * width + offset]
}

/// Some pixel is not fully opaque.
pub open spec fn is_transparent(width: u32, height: u32, layout: Layout, samples: Seq<u32>) -> bool {
    has_alpha(layout) && exists|pixel: int|
        0 <= pixel < width * height && !is_opaque(
            layout,
            #[trigger] sample_at(
                samples,
                pixel,
                picture::channels(layout),
                picture::channels(layout) - 1,
            ),
        )
}

/// Whether one of `pixels` pixels of `step` bytes each has another value than
/// `opaque` at `offset`.
fn any_byte(samples: &Vec<u8>, pixels: u64, step: usize, offset: usize, opaque: u8) -> (out: bool)
    requires
        offset < step,
        pixels * step <= samples@.len(),
    ensures
        out == exists|pixel: int|
            0 <= pixel < pixels && #[trigger] byte_at(samples@, pixel, step as nat, offset as int)
                != opaque,
{
    let mut at: usize = offset;
    let mut pixel: u64 = 0;
    let end: usize = samples.len();
    while pixel < pixels
        invariant
            pixel <= pixels,
            offset < step,
            pixels * step <= samples@.len() == end,
            pixel < pixels ==> at == pixel * step + offset,
            forall|p: int|
                0 <= p < pixel ==> #[trigger] byte_at(samples@, p, step as nat, offset as int)
                    == opaque,
        decreases pixels - pixel,
    {
        assert((pixel + 1) * step <= pixels * step) by (nonlinear_arith)
            requires
                pixel + 1 <= pixels,
        ;
        assert((pixel + 1) * step == pixel * step + step) by (nonlinear_arith);
        assert(byte_at(samples@, pixel as int, step as nat, offset as int) == samples@[at as int]);
        if samples[at] != opaque {
            return true;
        }
        pixel += 1;
        if pixel < pixels {
            assert((pixel + 1) * step <= pixels * step) by (nonlinear_arith)
                requires
                    pixel + 1 <= pixels,
            ;
            assert((pixel + 1) * step == pixel * step + step) by (nonlinear_arith);
            at += step;
        }
    }
    false
}

/// The byte of a pixel at an offset.
pub open spec fn byte_at(samples: Seq<u8>, pixel: int, step: nat, offset: int) -> u8 {
    samples[pixel * step + offset]
}

/// The word of a pixel at an offset.
pub open spec fn word_at(samples: Seq<u16>, pixel: int, step: nat, offset: int) -> u16 {
    samples[pixel * step + offset]
}

/// Whether one of `pixels` pixels of `step` words each has another value than
/// `opaque` at `offset`.
fn any_word(samples: &Vec<u16>, pixels: u64, step: usize, offset: usize, opaque: u16) -> (out: bool)
    requires
        offset < step,
        pixels * step <= samples@.len(),
    ensures
        out == exists|pixel: int|
            0 <= pixel < pixels && #[trigger] word_at(samples@, pixel, step as nat, offset as int)
                != opaque,
{
    let mut at: usize = offset;
    let mut pixel: u64 = 0;
    let end: usize = samples.len();
    while pixel < pixels
        invariant
            pixel <= pixels,
            offset < step,
            pixels * step <= samples@.len() == end,
            pixel < pixels ==> at == pixel * step + offset,
            forall|p: int|
                0 <= p < pixel ==> #[trigger] word_at(samples@, p, step as nat, offset as int)
                    == opaque,
        decreases pixels - pixel,
    {
        assert((pixel + 1) * step <= pixels * step) by (nonlinear_arith)
            requires
                pixel + 1 <= pixels,
        ;
        assert((pixel + 1) * step == pixel * step + step) by (nonlinear_arith);
        assert(word_at(samples@, pixel as int, step as nat, offset as int) == samples@[at as int]);
        if samples[at] != opaque {
            return true;
        }
        pixel += 1;
        if pixel < pixels {
            assert((pixel + 1) * step <= pixels * step) by (nonlinear_arith)
                requires
                    pixel + 1 <= pixels,
            ;
            assert((pixel + 1) * step == pixel * step + step) by (nonlinear_arith);
            at += step;
        }
    }
    false
}

/// Whether one of `pixels` pixels of `step` floats each, by their bits, has less than one
/// at `offset`, or no number.
fn any_float(samples: &Vec<u32>, pixels: u64, step: usize, offset: usize) -> (out: bool)
    requires
        offset < step,
        pixels * step <= samples@.len(),
    ensures
        out == exists|pixel: int|
            0 <= pixel < pixels && !is_opaque(
                Layout::Rgba32F,
                #[trigger] sample_at(samples@, pixel, step as nat, offset as int),
            ),
{
    let mut at: usize = offset;
    let mut pixel: u64 = 0;
    let end: usize = samples.len();
    while pixel < pixels
        invariant
            pixel <= pixels,
            offset < step,
            pixels * step <= samples@.len() == end,
            pixel < pixels ==> at == pixel * step + offset,
            forall|p: int|
                0 <= p < pixel ==> is_opaque(
                    Layout::Rgba32F,
                    #[trigger] sample_at(samples@, p, step as nat, offset as int),
                ),
        decreases pixels - pixel,
    {
        assert((pixel + 1) * step <= pixels * step) by (nonlinear_arith)
            requires
                pixel + 1 <= pixels,
        ;
        assert((pixel + 1) * step == pixel * step + step) by (nonlinear_arith);
        assert(sample_at(samples@, pixel as int, step as nat, offset as int)
            == samples@[at as int]);
        if samples[at] < 0x3f80_0000 || samples[at] > 0x7f80_0000 {
            return true;
        }
        pixel += 1;
        if pixel < pixels {
            assert((pixel + 1) * step <= pixels * step) by (nonlinear_arith)
                requires
                    pixel + 1 <= pixels,
            ;
            assert((pixel + 1) * step == pixel * step + step) by (nonlinear_arith);
            at += step;
        }
    }
    false
}

/// Whether a byte of alpha, the last of `step` to a pixel, is not opaque.
fn any_byte_alpha(image: &DynamicImage, pixels: u64, step: usize) -> (out: bool)
    requires
        step == picture::channels(picture::picture_layout(*image)) >= 2,
        picture::is_bytes(picture::picture_layout(*image)),
        pixels == picture::picture_width(*image) * picture::picture_height(*image),
    ensures
        out == exists|pixel: int|
            0 <= pixel < pixels && !is_opaque(
                picture::picture_layout(*image),
                #[trigger] sample_at(
                    picture::picture_samples(*image),
                    pixel,
                    step as nat,
                    step - 1,
                ),
            ),
{
    match picture::byte_samples(image) {
        Some(samples) => {
            let out = any_byte(&samples, pixels, step, step - 1, 255);
            proof {
                let (n, k, all) = (step as nat, step - 1, picture::picture_samples(*image));
                lemma_bytes_read_alike(samples@, all, pixels as int, n, k);
                if out {
                    let p = choose|p: int|
                        0 <= p < pixels && #[trigger] byte_at(samples@, p, n, k) != 255;
                    assert(sample_at(all, p, n, k) != 255);
                }
            }
            out
        },
        None => false,
    }
}

/// Whether a word of alpha, the last of `step` to a pixel, is not opaque.
fn any_word_alpha(image: &DynamicImage, pixels: u64, step: usize) -> (out: bool)
    requires
        step == picture::channels(picture::picture_layout(*image)) >= 2,
        picture::is_words(picture::picture_layout(*image)),
        pixels == picture::picture_width(*image) * picture::picture_height(*image),
    ensures
        out == exists|pixel: int|
            0 <= pixel < pixels && !is_opaque(
                picture::picture_layout(*image),
                #[trigger] sample_at(
                    picture::picture_samples(*image),
                    pixel,
                    step as nat,
                    step - 1,
                ),
            ),
{
    match picture::word_samples(image) {
        Some(samples) => {
            let out = any_word(&samples, pixels, step, step - 1, 65535);
            proof {
                let (n, k, all) = (step as nat, step - 1, picture::picture_samples(*image));
                lemma_words_read_alike(samples@, all, pixels as int, n, k);
                if out {
                    let p = choose|p: int|
                        0 <= p < pixels && #[trigger] word_at(samples@, p, n, k) != 65535;
                    assert(sample_at(all, p, n, k) != 65535);
                }
            }
            out
        },
        None => false,
    }
}

/// True when any pixel is not fully opaque. A PNG with an alpha channel that is
/// entirely 255 is just an RGB image paying for a fourth channel, and should still
/// get the lossy path.
pub fn has_transparency(image: &DynamicImage) -> (out: bool)
    ensures
        out == is_transparent(
            picture::picture_width(*image),
            picture::picture_height(*image),
            picture::picture_layout(*image),
            picture::picture_samples(*image),
        ),
{
    let layout = picture::layout(image);
    let (width, height): (u64, u64) = (picture::width(image) as u64, picture::height(image) as u64);
    assert(width * height <= 0xffff_ffff * 0xffff_ffff) by (nonlinear_arith)
        requires
            width <= 0xffff_ffff,
            height <= 0xffff_ffff,
    ;
    let pixels: u64 = width * height;
    assert(pixels == picture::picture_width(*image) * picture::picture_height(*image));
    let ghost (all, n) = (picture::picture_samples(*image), picture::channels(layout));
    let out = match layout {
        Layout::LumaA8 => any_byte_alpha(image, pixels, 2),
        Layout::Rgba8 => any_byte_alpha(image, pixels, 4),
        Layout::LumaA16 => any_word_alpha(image, pixels, 2),
        Layout::Rgba16 => any_word_alpha(image, pixels, 4),
        Layout::Rgba32F => match picture::float_samples(image) {
            Some(samples) => {
                let out = any_float(&samples, pixels, 4, 3);
                proof {
                    if out {
                        let p = choose|p: int|
                            0 <= p < pixels && !is_opaque(
                                layout,
                                #[trigger] sample_at(all, p, 4, 3),
                            );
                        assert(!is_opaque(layout, sample_at(all, p, n, n - 1)));
                    }
                }
                out
            },
            None => false,
        },
        _ => {
            return false;
        },
    };
    assert(out == exists|pixel: int|
        0 <= pixel < pixels && !is_opaque(layout, #[trigger] sample_at(all, pixel, n, n - 1)));
    out
}

proof fn lemma_bytes_read_alike(
    samples: Seq<u8>,
    all: Seq<u32>,
    pixels: int,
    step: nat,
    offset: int,
)
    requires
        0 <= offset < step,
        pixels * step <= samples.len(),
        forall|i: int| 0 <= i < samples.len() ==> all[i] == #[trigger] samples[i],
    ensures
        forall|p: int|
            0 <= p < pixels ==> #[trigger] byte_at(samples, p, step, offset) == sample_at(
                all,
                p,
                step,
                offset,
            ),
        forall|p: int|
            0 <= p < pixels ==> byte_at(samples, p, step, offset) == #[trigger] sample_at(
                all,
                p,
                step,
                offset,
            ),
{
    assert forall|p: int| 0 <= p < pixels implies #[trigger] byte_at(samples, p, step, offset)
        == sample_at(all, p, step, offset) by {
        assert(0 <= p * step + offset < samples.len()) by (nonlinear_arith)
            requires
                0 <= p,
                p + 1 <= pixels,
                0 <= offset < step,
                pixels * step <= samples.len(),
        ;
        assert(all[p * step + offset] == samples[p * step + offset]);
    }
    assert forall|p: int| 0 <= p < pixels implies byte_at(samples, p, step, offset)
        == #[trigger] sample_at(all, p, step, offset) by {
        assert(byte_at(samples, p, step, offset) == sample_at(all, p, step, offset));
    }
}

proof fn lemma_words_read_alike(
    samples: Seq<u16>,
    all: Seq<u32>,
    pixels: int,
    step: nat,
    offset: int,
)
    requires
        0 <= offset < step,
        pixels * step <= samples.len(),
        forall|i: int| 0 <= i < samples.len() ==> all[i] == #[trigger] samples[i],
    ensures
        forall|p: int|
            0 <= p < pixels ==> #[trigger] word_at(samples, p, step, offset) == sample_at(
                all,
                p,
                step,
                offset,
            ),
        forall|p: int|
            0 <= p < pixels ==> word_at(samples, p, step, offset) == #[trigger] sample_at(
                all,
                p,
                step,
                offset,
            ),
{
    assert forall|p: int| 0 <= p < pixels implies #[trigger] word_at(samples, p, step, offset)
        == sample_at(all, p, step, offset) by {
        assert(0 <= p * step + offset < samples.len()) by (nonlinear_arith)
            requires
                0 <= p,
                p + 1 <= pixels,
                0 <= offset < step,
                pixels * step <= samples.len(),
        ;
        assert(all[p * step + offset] == samples[p * step + offset]);
    }
    assert forall|p: int| 0 <= p < pixels implies word_at(samples, p, step, offset)
        == #[trigger] sample_at(all, p, step, offset) by {
        assert(word_at(samples, p, step, offset) == sample_at(all, p, step, offset));
    }
}

/// The speed AVIF files are encoded at, from 1 for the smallest file to 10 for the
/// quickest.
pub const AVIF_SPEED: u8 = 6;

/// The quality AVIF files are written at when none was asked for.
pub const AVIF_DEFAULT: u32 = 90 * QUALITY_ONE;

/// The layout is one that WebP files are written from.
pub open spec fn is_webp_layout(layout: Layout) -> bool {
    layout is Rgb8 || layout is Rgba8
}

/// A picture of this size and layout can be handed to the encoder of `format`.
pub open spec fn is_encodable(width: u32, height: u32, layout: Layout, format: Format) -> bool {
    match format {
        Format::WebP => is_webp_layout(layout) ==> picture::is_webp_side(width)
            && picture::is_webp_side(height),
        Format::Avif => width > 0 && height > 0,
    }
}

/// What encoding a picture with these contents can give: nothing for WebP from a
/// layout it has no reader for; else a file, a lossless one that keeps every alpha sample
/// wherever lossless was asked for or there is transparency to lose, and nothing only
/// where the encoder of a lossy one fails. A WebP file keeps the size.
pub open spec fn can_encode(
    picture: (u32, u32, Layout, Seq<u32>),
    format: Format,
    quality: Quality,
    out: Option<Seq<u8>>,
) -> bool {
    let (width, height, layout, samples) = picture;
    match format {
        Format::WebP => if !is_webp_layout(layout) {
            out is None
        } else if quality.0 is None || is_transparent(width, height, layout, samples) {
            &&& out matches Some(file)
            &&& picture::webp_lossless(width, height, layout, samples).contains(file)
            &&& picture::keeps_size(width, height, file)
            &&& picture::keeps_alpha(picture, file)
        } else {
            &&& picture::webp_lossy(
                width,
                height,
                layout,
                samples,
                picture::quality_text(quality.0->0 as nat),
            ).contains(out)
            &&& out matches Some(file) ==> picture::keeps_size(width, height, file)
        },
        Format::Avif => exists|pixels: Seq<u8>|
            {
                &&& #[trigger] picture::as_rgba(width, height, layout, samples).contains(pixels)
                &&& picture::avif(
                    pixels,
                    width,
                    height,
                    picture::quality_text(
                        match quality.0 {
                            Some(units) => units as nat,
                            None => AVIF_DEFAULT as nat,
                        },
                    ),
                    AVIF_SPEED,
                ).contains(out)
            },
    }
}

/// The bytes behind an optional file.
pub open spec fn file_view(file: Option<Vec<u8>>) -> Option<Seq<u8>> {
    match file {
        Some(bytes) => Some(bytes@),
        None => None,
    }
}

/// Encode `image` in `format`. Returns the encoded bytes.
pub fn encode(image: &DynamicImage, format: Format, quality: Quality) -> (out: Option<Vec<u8>>)
    requires
        picture::is_exact(*image),
        quality.in_range(),
        is_encodable(
            picture::picture_width(*image),
            picture::picture_height(*image),
            picture::picture_layout(*image),
            format,
        ),
    ensures
        can_encode(picture::contents(*image), format, quality, file_view(out)),
{
    match format {
        Format::WebP => encode_webp(image, quality),
        Format::Avif => encode_avif(image, quality),
    }
}

/// libwebp's lossy path discards the alpha channel's precision in ways that ruin
/// cut-outs, so anything carrying real transparency goes lossless regardless of the
/// requested quality.
pub fn encode_webp(image: &DynamicImage, quality: Quality) -> (out: Option<Vec<u8>>)
    requires
        quality.in_range(),
        is_encodable(
            picture::picture_width(*image),
            picture::picture_height(*image),
            picture::picture_layout(*image),
            Format::WebP,
        ),
    ensures
        can_encode(picture::contents(*image), Format::WebP, quality, file_view(out)),
{
    match quality.0 {
        None => picture::write_webp_lossless(image),
        Some(units) => {
            if has_transparency(image) {
                picture::write_webp_lossless(image)
            } else {
                let digits = picture::quality_text_of(units);
                picture::write_webp_lossy(image, digits.as_str())
            }
        },
    }
}

/// AVIF keeps alpha in a separate plane, so transparency needs no special case here.
/// Lossless AVIF is not offered because it is routinely larger than lossless WebP and
/// slower to produce.
pub fn encode_avif(image: &DynamicImage, quality: Quality) -> (out: Option<Vec<u8>>)
    requires
        picture::is_exact(*image),
        quality.in_range(),
        picture::picture_width(*image) > 0,
        picture::picture_height(*image) > 0,
    ensures
        can_encode(picture::contents(*image), Format::Avif, quality, file_view(out)),
{
    let (width, height) = (picture::width(image), picture::height(image));
    let pixels = picture::rgba_samples(image);
    let units: u32 = match quality.0 {
        Some(units) => units,
        None => AVIF_DEFAULT,
    };
    let digits = picture::quality_text_of(units);
    let out = picture::write_avif(&pixels, width, height, digits.as_str(), AVIF_SPEED);
    proof {
        let (w, h, layout, samples) = picture::contents(*image);
        assert(picture::as_rgba(w, h, layout, samples).contains(pixels@));
        assert(picture::avif(pixels@, w, h, digits@, AVIF_SPEED).contains(file_view(out)));
    }
    out
}

/// What encoding a picture after scaling it can give, with the size written. A size
/// that cannot be scaled, or that the encoder cannot take, gives nothing.
pub open spec fn can_shrink(
    picture: (u32, u32, Layout, Seq<u32>),
    format: Format,
    quality: Quality,
    max_edge: MaxEdge,
    out: Option<(Seq<u8>, u32, u32)>,
) -> bool {
    if !is_scalable(max_edge, picture.0, picture.1) {
        out is None
    } else {
        exists|scaled: (u32, u32, Layout, Seq<u32>)|
            {
                &&& #[trigger] can_scale(max_edge, picture, scaled)
                &&& if is_encodable(scaled.0, scaled.1, scaled.2, format) {
                    match out {
                        Some((file, width, height)) => {
                            &&& can_encode(scaled, format, quality, Some(file))
                            &&& width == scaled.0
                            &&& height == scaled.1
                        },
                        None => can_encode(scaled, format, quality, None),
                    }
                } else {
                    out is None
                }
            }
    }
}

/// What re-encoding a file at this path with these bytes can give: nothing where it does
/// not decode.
pub open spec fn can_reencode(
    path: Seq<char>,
    bytes: Seq<u8>,
    format: Format,
    quality: Quality,
    max_edge: MaxEdge,
    out: Option<(Seq<u8>, u32, u32)>,
) -> bool {
    exists|read: Option<(u32, u32, Layout, Seq<u32>)>|
        #[trigger] picture::opened(path, bytes).contains(read) && match read {
            None => out is None,
            Some(picture) => can_shrink(picture, format, quality, max_edge, out),
        }
}

/// A re-encoded picture: the file, and the width and height written.
pub struct Encoded {
    pub file: Vec<u8>,
    pub width: u32,
    pub height: u32,
}

/// The file and size behind an optional result.
pub open spec fn encoded_view(out: Option<Encoded>) -> Option<(Seq<u8>, u32, u32)> {
    match out {
        Some(encoded) => Some((encoded.file@, encoded.width, encoded.height)),
        None => None,
    }
}

/// Whether a picture of this size and layout can be handed to the encoder.
pub(crate) fn encodable(width: u32, height: u32, layout: Layout, format: Format) -> (out: bool)
    ensures
        out == is_encodable(width, height, layout, format),
{
    match format {
        Format::WebP => match layout {
            Layout::Rgb8 | Layout::Rgba8 => 1 <= width && width <= 16383 && 1 <= height && height
                <= 16383,
            _ => true,
        },
        Format::Avif => width > 0 && height > 0,
    }
}

/// Scale a decoded picture and encode it.
pub fn shrink(
    image: DynamicImage,
    format: Format,
    quality: Quality,
    max_edge: MaxEdge,
) -> (out: Option<Encoded>)
    requires
        picture::is_exact(image),
        quality.in_range(),
    ensures
        can_shrink(picture::contents(image), format, quality, max_edge, encoded_view(out)),
{
    if !max_edge.scales(picture::width(&image), picture::height(&image)) {
        return None;
    }
    let scaled = max_edge.apply(image);
    let (width, height) = (picture::width(&scaled), picture::height(&scaled));
    assert(can_scale(max_edge, picture::contents(image), picture::contents(scaled)));
    if !encodable(width, height, picture::layout(&scaled), format) {
        return None;
    }
    match encode(&scaled, format, quality) {
        Some(file) => Some(Encoded { file, width, height }),
        None => None,
    }
}

/// Decode a file's bytes, scale the picture and encode it.
pub fn reencode(
    path: &str,
    bytes: &Vec<u8>,
    format: Format,
    quality: Quality,
    max_edge: MaxEdge,
) -> (out: Option<Encoded>)
    requires
        quality.in_range(),
    ensures
        can_reencode(path@, bytes@, format, quality, max_edge, encoded_view(out)),
{
    match picture::open(path, bytes) {
        Some(image) => {
            let ghost read = Some(picture::contents(image));
            assert(picture::opened(path@, bytes@).contains(read));
            shrink(image, format, quality, max_edge)
        },
        None => None,
    }
}

/// The components of a converted file's path: the names of the source's, those of `root`
/// left out where it begins with them, below `out_dir`, with the extension of the format.
pub open spec fn output_parts(
    root: Seq<char>,
    source: Seq<char>,
    out_dir: Seq<char>,
    format: Format,
) -> Seq<Seq<char>> {
    let parts = paths::components(source);
    let relative = match paths::below(parts, paths::components(root)) {
        Some(rest) => rest,
        None => parts,
    };
    paths::components(out_dir) + paths::retitled(paths::names(relative), format_text(format))
}

/// What follows the root in a path can be written out by itself.
proof fn lemma_output_reads_back(
    root: Seq<char>,
    source: Seq<char>,
    out_dir: Seq<char>,
    format: Format,
)
    ensures
        ({
            let parts = output_parts(root, source, out_dir, format);
            paths::components(paths::path_text(parts)) == parts
        }),
{
    reveal_strlit("webp");
    reveal_strlit("avif");
    let (parts, top) = (paths::components(source), paths::components(root));
    paths::lemma_components_are_spelled(source);
    let extension = format_text(format);
    assert(!extension.contains('/'));
    match paths::below(parts, top) {
        Some(rest) => {
            if top.len() == 0 {
                assert(rest =~= parts);
            } else {
                assert forall|i: int| 0 <= i < rest.len() implies (#[trigger] rest[i]).len() > 0
                    && !rest[i].contains('/') && rest[i] != seq!['.'] by {
                    assert(rest[i] == parts[i + top.len()]);
                }
            }
            paths::lemma_names_go_below(out_dir, rest, extension);
        },
        None => {
            paths::lemma_names_go_below(out_dir, parts, extension);
        },
    }
}

/// Where a converted file goes: the same layout as the source, rooted at `out_dir`,
/// with the extension of the format. Keeping the tree means a folder of albums stays
/// a folder of albums. A source outside the root goes below `out_dir` all the same.
pub fn output_path(root: &str, source: &str, out_dir: &str, format: Format) -> (out: String)
    ensures
        out@ == paths::path_text(output_parts(root@, source@, out_dir@, format)),
        paths::components(out@) == output_parts(root@, source@, out_dir@, format),
        paths::components(out_dir@).is_prefix_of(paths::components(out@)),
{
    let parts = paths::components_of(source);
    let mut out = paths::components_of(out_dir);
    let names = match paths::strip_root(&parts, &paths::components_of(root)) {
        Some(rest) => paths::names_of(&rest),
        None => paths::names_of(&parts),
    };
    let ghost base = text::views(out@);
    let mut titled = paths::retitle(names, format.extension());
    let ghost below = text::views(titled@);
    let ghost (front, back) = (out@, titled@);
    out.append(&mut titled);
    proof {
        assert(out@ == front + back);
        assert(text::views(out@) =~= base + below);
        lemma_output_reads_back(root@, source@, out_dir@, format);
    }
    paths::path_of(&out)
}

/// Re-encode one file, read from `source`: what to write, and where.
pub fn convert_file(
    root: &str,
    source: &str,
    out_dir: &str,
    format: Format,
    quality: Quality,
    max_edge: MaxEdge,
    bytes: &Vec<u8>,
) -> (out: Option<(Converted, Vec<u8>)>)
    requires
        quality.in_range(),
    ensures
        can_reencode(
            source@,
            bytes@,
            format,
            quality,
            max_edge,
            match out {
                Some((converted, file)) => Some((file@, converted.width, converted.height)),
                None => None,
            },
        ),
        out matches Some((converted, file)) ==> {
            &&& converted.written@ == paths::path_text(
                output_parts(root@, source@, out_dir@, format),
            )
            &&& converted.bytes == file@.len()
        },
{
    match reencode(source, bytes, format, quality, max_edge) {
        Some(encoded) => {
            let written = output_path(root, source, out_dir, format);
            Some(report(written, encoded))
        },
        None => None,
    }
}

/// What a conversion reports of a file it encoded, beside the file itself.
pub fn report(written: String, encoded: Encoded) -> (out: (Converted, Vec<u8>))
    ensures
        out.0.written == written,
        out.0.bytes == encoded.file@.len(),
        out.0.width == encoded.width,
        out.0.height == encoded.height,
        out.1 == encoded.file,
{
    let bytes: u64 = encoded.file.len() as u64;
    (
        Converted { written, bytes, width: encoded.width, height: encoded.height },
        encoded.file,
    )
}

/// How many files are encoded at once. Each holds a fully decoded image in memory, so
/// the number is a memory bound as much as a CPU one.
pub const WORKERS: usize = 8;

/// `wanted` with `-n` put before `ending`, or at the end where it ends otherwise.
pub open spec fn numbered(wanted: Seq<char>, ending: Seq<char>, n: nat) -> Seq<char> {
    let mark = seq!['-'] + text::decimal(n);
    if ending.is_suffix_of(wanted) {
        wanted.take(wanted.len() - ending.len()) + mark + ending
    } else {
        wanted + mark
    }
}

/// One of the first `upto` paths is this one.
pub open spec fn is_taken(outputs: Seq<String>, upto: int, path: Seq<char>) -> bool {
    exists|i: int| 0 <= i < upto && (#[trigger] outputs[i])@ == path
}

/// The path planned for the source at `i`: the one it wants where no earlier source
/// has it, else that one with the lowest number, from two up, that none has.
pub open spec fn is_planned(
    root: Seq<char>,
    source: Seq<char>,
    out_dir: Seq<char>,
    format: Format,
    outputs: Seq<String>,
    i: int,
) -> bool {
    let wanted = paths::path_text(output_parts(root, source, out_dir, format));
    let ending = seq!['.'] + format_text(format);
    if !is_taken(outputs, i, wanted) {
        outputs[i]@ == wanted
    } else {
        exists|n: nat|
            {
                &&& n >= 2
                &&& outputs[i]@ == #[trigger] numbered(wanted, ending, n)
                &&& !is_taken(outputs, i, outputs[i]@)
                &&& forall|m: nat| 2 <= m < n ==> is_taken(outputs, i, #[trigger] numbered(
                    wanted,
                    ending,
                    m,
                ))
            }
    }
}

/// Every file of a run is written below `out_dir`, numbered or not, as long as its source
/// ends in a name.
pub proof fn law_planned_files_go_below(
    root: Seq<char>,
    source: Seq<char>,
    out_dir: Seq<char>,
    format: Format,
    outputs: Seq<String>,
    i: int,
)
    requires
        0 <= i < outputs.len(),
        is_planned(root, source, out_dir, format, outputs, i),
        paths::components(out_dir).len() < output_parts(root, source, out_dir, format).len(),
    ensures
        paths::components(out_dir).is_prefix_of(paths::components(outputs[i]@)),
        paths::components(outputs[i]@).len() == output_parts(root, source, out_dir, format).len(),
{
    let base = paths::components(out_dir);
    let parts = output_parts(root, source, out_dir, format);
    let wanted = paths::path_text(parts);
    let ending = seq!['.'] + format_text(format);
    lemma_output_reads_back(root, source, out_dir, format);
    if is_taken(outputs, i, wanted) {
        let n = choose|n: nat|
            {
                &&& n >= 2
                &&& outputs[i]@ == #[trigger] numbered(wanted, ending, n)
            };
        lemma_numbered_is_a_name(root, source, out_dir, format, n);
        let named = renamed(parts, format, n);
        assert(paths::components(outputs[i]@) == named);
        assert(base =~= named.subrange(0, base.len() as int));
    } else {
        assert(base =~= parts.subrange(0, base.len() as int));
    }
}

/// `parts` with `-n` at the end of its last name, before the extension.
spec fn renamed(parts: Seq<Seq<char>>, format: Format, n: nat) -> Seq<Seq<char>> {
    let (name, ending) = (parts.last(), seq!['.'] + format_text(format));
    parts.drop_last().push(
        name.take(name.len() - ending.len()) + (seq!['-'] + text::decimal(n)) + ending,
    )
}

/// A number is made of digits.
proof fn lemma_decimal_is_digits(n: nat, c: char)
    requires
        text::decimal(n).contains(c),
    ensures
        '0' <= c <= '9',
    decreases n,
{
    let digits = text::decimal(n);
    let k = choose|k: int| 0 <= k < digits.len() && digits[k] == c;
    if n >= 10 {
        let front = text::decimal(n / 10);
        if k < front.len() {
            assert(front[k] == c);
            assert(front.contains(c));
            lemma_decimal_is_digits(n / 10, c);
        }
    }
}

/// A numbered path reads as the path with a number in its last name.
proof fn lemma_numbered_is_a_name(
    root: Seq<char>,
    source: Seq<char>,
    out_dir: Seq<char>,
    format: Format,
    n: nat,
)
    requires
        paths::components(out_dir).len() < output_parts(root, source, out_dir, format).len(),
    ensures
        ({
            let parts = output_parts(root, source, out_dir, format);
            let ending = seq!['.'] + format_text(format);
            let path = numbered(paths::path_text(parts), ending, n);
            paths::components(path) == renamed(parts, format, n)
        }),
{
    reveal_strlit("webp");
    reveal_strlit("avif");
    let parts = output_parts(root, source, out_dir, format);
    let (extension, ending) = (format_text(format), seq!['.'] + format_text(format));
    let (front, name) = (parts.drop_last(), parts.last());
    lemma_output_reads_back(root, source, out_dir, format);
    paths::lemma_components_are_spelled(paths::path_text(parts));
    assert(parts =~= front.push(name));
    // The last name is a stem and the ending.
    let relative = match paths::below(paths::components(source), paths::components(root)) {
        Some(rest) => rest,
        None => paths::components(source),
    };
    let own = paths::names(relative);
    let titled = paths::retitled(own, extension);
    assert(titled.len() > 0);
    assert(own.len() > 0);
    assert(paths::is_name(own.last())) by {
        paths::lemma_names_are_names(relative);
        assert(own.last() == own[own.len() - 1]);
    }
    let stem = paths::stem(own.last());
    assert(name == titled.last());
    assert(name =~= stem + ending);
    let mark = seq!['-'] + text::decimal(n);
    let new = stem + mark + ending;
    assert(name.take(name.len() - ending.len()) =~= stem);
    let named = renamed(parts, format, n);
    assert(named =~= front.push(new));
    // The path ends in the name, so the number goes into it.
    assert(name.len() >= 2 && new.len() >= 2 && seq!['/'].len() == 1);
    paths::lemma_path_ends_in_its_name(front, name);
    paths::lemma_path_ends_in_its_name(front, new);
    let wanted = paths::path_text(parts);
    let lead = paths::lead(front);
    assert(wanted == lead + name);
    assert(ending.is_suffix_of(wanted)) by {
        assert(wanted.skip(wanted.len() - ending.len()) =~= ending);
        assert(ending =~= wanted.subrange(wanted.len() - ending.len(), wanted.len() as int));
    }
    assert(wanted.take(wanted.len() - ending.len()) =~= lead + stem);
    assert(numbered(wanted, ending, n) =~= lead + new);
    // And the path with the new name reads as written.
    assert(!new.contains('/')) by {
        if new.contains('/') {
            let k = choose|k: int| 0 <= k < new.len() && new[k] == '/';
            let (s, m) = (stem.len(), mark.len());
            if k < s {
                assert(name[k] == '/');
                assert(parts[parts.len() - 1].contains('/'));
            } else if k < s + m {
                assert(mark[k - s] == '/');
                assert(text::decimal(n)[k - s - 1] == '/');
                assert(text::decimal(n).contains('/'));
                lemma_decimal_is_digits(n, '/');
            } else {
                assert(ending[k - s - m] == '/');
            }
        }
    }
    assert(paths::is_spelled(named)) by {
        assert forall|i: int| 0 <= i < named.len() implies {
            ||| i == 0 && named[0] == seq!['/']
            ||| {
                &&& (#[trigger] named[i]).len() > 0
                &&& !named[i].contains('/')
                &&& named[i] == seq!['.'] ==> i == 0
            }
        } by {
            assert(seq!['.'].len() == 1);
            if i < front.len() {
                assert(named[i] == parts[i]);
            }
        }
    }
    paths::law_written_path_reads_back(named);
}

/// Different numbers read differently.
pub proof fn lemma_decimal_is_unique(a: nat, b: nat)
    requires
        text::decimal(a) == text::decimal(b),
    ensures
        a == b,
    decreases a + b,
{
    let (x, y) = (text::decimal(a), text::decimal(b));
    assert(x.last() == text::digit(a % 10)) by {
        if a < 10 {
            assert(a % 10 == a);
        }
    }
    assert(y.last() == text::digit(b % 10)) by {
        if b < 10 {
            assert(b % 10 == b);
        }
    }
    assert(a % 10 == b % 10);
    lemma_decimal_has_digits(a / 10);
    lemma_decimal_has_digits(b / 10);
    if a >= 10 && b >= 10 {
        assert(x.drop_last() =~= text::decimal(a / 10));
        assert(y.drop_last() =~= text::decimal(b / 10));
        lemma_decimal_is_unique(a / 10, b / 10);
    } else if a >= 10 {
        assert(x.len() == text::decimal(a / 10).len() + 1);
        assert(y.len() == 1);
    } else if b >= 10 {
        assert(y.len() == text::decimal(b / 10).len() + 1);
        assert(x.len() == 1);
    }
}

/// A number has at least one digit.
pub proof fn lemma_decimal_has_digits(a: nat)
    ensures
        text::decimal(a).len() >= 1,
{
}

/// Different numbers give different paths.
proof fn lemma_numbered_is_unique(wanted: Seq<char>, ending: Seq<char>, a: nat, b: nat)
    requires
        numbered(wanted, ending, a) == numbered(wanted, ending, b),
    ensures
        a == b,
{
    let (x, y) = (numbered(wanted, ending, a), numbered(wanted, ending, b));
    let (p, q) = (text::decimal(a), text::decimal(b));
    let front = if ending.is_suffix_of(wanted) {
        wanted.len() - ending.len()
    } else {
        wanted.len() as int
    };
    assert(x.len() == y.len());
    assert(p.len() == q.len());
    assert(p =~= x.subrange(front + 1, front + 1 + p.len()));
    assert(q =~= y.subrange(front + 1, front + 1 + q.len()));
    lemma_decimal_is_unique(a, b);
}

/// Where `path` stands among the outputs so far.
fn find_output(outputs: &Vec<String>, path: &str) -> (out: Option<usize>)
    ensures
        out is Some == is_taken(outputs@, outputs@.len() as int, path@),
        out matches Some(i) ==> i < outputs@.len() && outputs@[i as int]@ == path@,
{
    let mut i: usize = 0;
    while i < outputs.len()
        invariant
            i <= outputs@.len(),
            forall|j: int| 0 <= j < i ==> (#[trigger] outputs@[j])@ != path@,
        decreases outputs@.len() - i,
    {
        if text::same(outputs[i].as_str(), path) {
            return Some(i);
        }
        i += 1;
    }
    None
}

/// `wanted` with `-n` put before `ending`.
fn numbered_of(wanted: &str, ending: &str, n: u128) -> (out: String)
    ensures
        out@ == numbered(wanted@, ending@, n as nat),
{
    let chars = text::chars_of(wanted);
    let tail = text::chars_of(ending);
    let mut mark = "-".to_string();
    proof {
        reveal_strlit("-");
        assert("-"@ =~= seq!['-']);
    }
    mark.append(text::decimal_of(n).as_str());
    if tail.len() <= chars.len() {
        let front: usize = chars.len() - tail.len();
        let end = text::text_of(&chars, front, chars.len());
        if text::same(end.as_str(), ending) {
            assert(ending@.is_suffix_of(wanted@));
            let mut out = text::text_of(&chars, 0, front);
            assert(out@ =~= wanted@.take(front as int));
            out.append(mark.as_str());
            out.append(ending);
            return out;
        }
        assert(!ending@.is_suffix_of(wanted@));
    }
    text::glued(wanted, mark.as_str())
}

/// A set of different positions in a list is no larger than the list.
proof fn lemma_positions_fit(hit: Set<int>, len: int)
    requires
        hit.finite(),
        0 <= len,
        forall|i: int| hit.contains(i) ==> 0 <= i < len,
    ensures
        hit.len() <= len,
{
    let all = vstd::set_lib::set_int_range(0, len);
    vstd::set_lib::lemma_int_range(0, len);
    assert(hit.subset_of(all));
    vstd::set_lib::lemma_len_subset(hit, all);
}

/// The lowest number, from two up, that makes `wanted` a path no output has.
fn free_number(outputs: &Vec<String>, wanted: &str, ending: &str) -> (out: String)
    ensures
        !is_taken(outputs@, outputs@.len() as int, out@),
        exists|n: nat|
            {
                &&& n >= 2
                &&& out@ == #[trigger] numbered(wanted@, ending@, n)
                &&& forall|m: nat| 2 <= m < n ==> is_taken(
                    outputs@,
                    outputs@.len() as int,
                    #[trigger] numbered(wanted@, ending@, m),
                )
            },
{
    let mut n: u128 = 2;
    let ghost mut hit: Set<int> = Set::empty();
    let len: usize = outputs.len();
    loop
        invariant
            len == outputs@.len(),
            n >= 2,
            hit.finite(),
            hit.len() == n - 2,
            forall|i: int| hit.contains(i) ==> 0 <= i < len,
            forall|i: int| hit.contains(i) ==> exists|m: nat|
                2 <= m < n && (#[trigger] outputs@[i])@ == #[trigger] numbered(
                    wanted@,
                    ending@,
                    m,
                ),
            forall|m: nat| 2 <= m < n ==> is_taken(outputs@, len as int, #[trigger] numbered(
                wanted@,
                ending@,
                m,
            )),
        decreases len + 2 - n,
    {
        let candidate = numbered_of(wanted, ending, n);
        match find_output(outputs, candidate.as_str()) {
            None => {
                return candidate;
            },
            Some(i) => {
                proof {
                    if hit.contains(i as int) {
                        let m = choose|m: nat|
                            2 <= m < n && outputs@[i as int]@ == #[trigger] numbered(
                                wanted@,
                                ending@,
                                m,
                            );
                        lemma_numbered_is_unique(wanted@, ending@, m, n as nat);
                    }
                    assert(outputs@[i as int]@ == numbered(wanted@, ending@, n as nat));
                    hit = hit.insert(i as int);
                    lemma_positions_fit(hit, len as int);
                }
                n += 1;
            },
        }
    }
}

/// Pick the output paths of a whole run together, before any of it writes: two
/// sources can want one name, and no two may get it.
pub fn plan_outputs(
    root: &str,
    sources: &Vec<String>,
    out_dir: &str,
    format: Format,
) -> (out: Vec<String>)
    ensures
        out@.len() == sources@.len(),
        forall|i: int|
            0 <= i < out@.len() ==> is_planned(
                root@,
                #[trigger] sources@[i]@,
                out_dir@,
                format,
                out@,
                i,
            ),
        forall|i: int, j: int| 0 <= i < j < out@.len() ==> (#[trigger] out@[i])@ != (
        #[trigger] out@[j])@,
{
    let mut ending = ".".to_string();
    ending.append(format.extension());
    proof {
        reveal_strlit(".");
        assert("."@ =~= seq!['.']);
    }
    let mut out: Vec<String> = Vec::new();
    let mut i: usize = 0;
    while i < sources.len()
        invariant
            i <= sources@.len(),
            out@.len() == i,
            ending@ == seq!['.'] + format_text(format),
            forall|k: int|
                0 <= k < i ==> is_planned(
                    root@,
                    #[trigger] sources@[k]@,
                    out_dir@,
                    format,
                    out@,
                    k,
                ),
            forall|a: int, b: int| 0 <= a < b < i ==> (#[trigger] out@[a])@ != (
            #[trigger] out@[b])@,
        decreases sources@.len() - i,
    {
        let wanted = output_path(root, sources[i].as_str(), out_dir, format);
        let path = match find_output(&out, wanted.as_str()) {
            None => wanted,
            Some(_) => free_number(&out, wanted.as_str(), ending.as_str()),
        };
        let ghost before = out@;
        out.push(path);
        proof {
            assert forall|k: int, p: Seq<char>| 0 <= k <= i implies is_taken(before, k, p)
                == #[trigger] is_taken(out@, k, p) by {
                if is_taken(before, k, p) {
                    let j = choose|j: int| 0 <= j < k && (#[trigger] before[j])@ == p;
                    assert(out@[j]@ == p);
                }
                if is_taken(out@, k, p) {
                    let j = choose|j: int| 0 <= j < k && (#[trigger] out@[j])@ == p;
                    assert(before[j]@ == p);
                }
            }
            assert forall|k: int| 0 <= k < i + 1 implies is_planned(
                root@,
                #[trigger] sources@[k]@,
                out_dir@,
                format,
                out@,
                k,
            ) by {
                let want = paths::path_text(output_parts(root@, sources@[k]@, out_dir@, format));
                assert(is_taken(before, k, want) == is_taken(out@, k, want));
                if k < i {
                    assert(is_planned(root@, sources@[k]@, out_dir@, format, before, k));
                    if is_taken(before, k, want) {
                        let n = choose|n: nat|
                            {
                                &&& n >= 2
                                &&& before[k]@ == #[trigger] numbered(want, ending@, n)
                                &&& !is_taken(before, k, before[k]@)
                                &&& forall|m: nat| 2 <= m < n ==> is_taken(
                                    before,
                                    k,
                                    #[trigger] numbered(want, ending@, m),
                                )
                            };
                        assert(out@[k]@ == numbered(want, ending@, n));
                        assert(is_taken(before, k, out@[k]@) == is_taken(out@, k, out@[k]@));
                        assert forall|m: nat| 2 <= m < n implies is_taken(
                            out@,
                            k,
                            #[trigger] numbered(want, ending@, m),
                        ) by {
                            assert(is_taken(before, k, numbered(want, ending@, m)));
                        }
                    }
                } else if is_taken(before, k, want) {
                    let n = choose|n: nat|
                        {
                            &&& n >= 2
                            &&& path@ == #[trigger] numbered(want, ending@, n)
                            &&& forall|m: nat| 2 <= m < n ==> is_taken(
                                before,
                                i as int,
                                #[trigger] numbered(want, ending@, m),
                            )
                        };
                    assert(out@[k]@ == numbered(want, ending@, n));
                    assert(is_taken(before, k, out@[k]@) == is_taken(out@, k, out@[k]@));
                    assert forall|m: nat| 2 <= m < n implies is_taken(
                        out@,
                        k,
                        #[trigger] numbered(want, ending@, m),
                    ) by {
                        assert(is_taken(before, k, numbered(want, ending@, m)));
                    }
                }
            }
            assert forall|a: int, b: int| 0 <= a < b < i + 1 implies (#[trigger] out@[a])@ != (
            #[trigger] out@[b])@ by {
                if b == i {
                    assert(!is_taken(before, i as int, path@));
                    assert(before[a]@ != path@);
                }
            }
        }
        i += 1;
    }
    out
}

// ── What holds throughout ───────────────────────────────────────────────────

/// Anything carrying real transparency is encoded without loss as WebP, whatever quality
/// is asked for, and what the file decodes to has every alpha sample of it.
pub proof fn law_transparency_is_never_lossy(
    picture: (u32, u32, Layout, Seq<u32>),
    one: Quality,
    other: Quality,
    out: Option<Seq<u8>>,
)
    requires
        is_transparent(picture.0, picture.1, picture.2, picture.3),
    ensures
        can_encode(picture, Format::WebP, one, out) <==> can_encode(
            picture,
            Format::WebP,
            other,
            out,
        ),
        can_encode(picture, Format::WebP, one, out) <==> can_encode(
            picture,
            Format::WebP,
            Quality(None),
            out,
        ),
        can_encode(picture, Format::WebP, one, out) && picture.2 is Rgba8 ==> {
            &&& out matches Some(file)
            &&& picture::keeps_alpha(picture, file)
        },
{
}

/// A picture inside the edge stays as it is. Any other has its longest side brought to
/// just the edge, no side longer than it was, and each side within half a pixel of its
/// share or at one pixel; its layout stays, and scaling it again changes nothing.
pub proof fn law_scaling_never_enlarges(
    max_edge: MaxEdge,
    before: (u32, u32, Layout, Seq<u32>),
    after: (u32, u32, Layout, Seq<u32>),
    again: (u32, u32, Layout, Seq<u32>),
)
    requires
        max_edge.0 matches Some(edge) ==> edge > 0,
        before.0 > 0,
        before.1 > 0,
        is_scalable(max_edge, before.0, before.1),
        can_scale(max_edge, before, after),
        can_scale(max_edge, after, again),
    ensures
        is_inside(max_edge, before.0, before.1) ==> after == before,
        !is_inside(max_edge, before.0, before.1) ==> {
            let longest = picture::longest(before.0, before.1);
            let edge = max_edge.0->0 as nat;
            &&& picture::longest(after.0, after.1) == edge < longest
            &&& is_to_scale(before.0, after.0, edge, longest)
            &&& is_to_scale(before.1, after.1, edge, longest)
        },
        after.0 <= before.0 && after.1 <= before.1,
        after.2 == before.2,
        is_inside(max_edge, after.0, after.1),
        again == after,
{
    if !is_inside(max_edge, before.0, before.1) {
        let longest = picture::longest(before.0, before.1);
        let edge = max_edge.0->0 as nat;
        picture::lemma_fitted(before.0 as nat, longest, edge);
        picture::lemma_fitted(before.1 as nat, longest, edge);
        lemma_small_product(before.0 as nat, edge);
        lemma_small_product(before.1 as nat, edge);
    }
}

proof fn lemma_small_product(side: nat, edge: nat)
    requires
        side <= 0x40_0000,
        edge <= 0x40_0000,
    ensures
        side * edge < 0x1_0000_0000_0000,
{
    assert(side * edge <= 0x40_0000 * 0x40_0000) by (nonlinear_arith)
        requires
            side <= 0x40_0000,
            edge <= 0x40_0000,
    ;
}

/// The side is within half a pixel of its share of the edge, or at one pixel.
pub open spec fn is_to_scale(before: u32, after: u32, edge: nat, longest: nat) -> bool {
    after > 1 ==> number::within_half(
        (after * longest) as int,
        (before * edge) as int,
        longest as int,
    )
}

/// A picture put out fits the edge on both sides, whichever side of it was too long. It is
/// the picture put in just where both of its sides fitted; else one of its sides is the
/// edge, the sides keep their order, and none is lost. Without an edge nothing changes.
pub proof fn law_a_scaled_picture_fits(
    max_edge: MaxEdge,
    before: (u32, u32, Layout, Seq<u32>),
    after: (u32, u32, Layout, Seq<u32>),
)
    requires
        before.0 > 0,
        before.1 > 0,
        can_scale(max_edge, before, after),
    ensures
        max_edge.0 is None ==> after == before,
        max_edge.0 matches Some(edge) ==> edge > 0 ==> {
            &&& 1 <= after.0 <= edge
            &&& 1 <= after.1 <= edge
            &&& after == before <==> before.0 <= edge && before.1 <= edge
            &&& before.0 > edge || before.1 > edge ==> after.0 == edge || after.1 == edge
            &&& before.0 > edge && before.0 >= before.1 ==> after.0 == edge
            &&& before.1 > edge && before.1 >= before.0 ==> after.1 == edge
            &&& after.0 <= before.0 && after.1 <= before.1
            &&& after.2 == before.2
        },
{
    if max_edge.0 is Some && max_edge.0->0 > 0 {
        let longest = picture::longest(before.0, before.1);
        let edge = max_edge.0->0 as nat;
        picture::lemma_fitted(before.0 as nat, longest, edge);
        picture::lemma_fitted(before.1 as nat, longest, edge);
    }
}

/// Every picture that fits the edge is taken as it is, and every other one of ordinary size
/// is scaled: sides of up to four million pixels, and a sixteenth of what can be addressed
/// in all.
pub proof fn law_ordinary_pictures_scale(max_edge: MaxEdge, width: u32, height: u32)
    requires
        max_edge.0 matches Some(edge) ==> width <= edge && height <= edge || {
            &&& width <= 4_000_000
            &&& height <= 4_000_000
            &&& 16 * (width * height) <= isize::MAX
        },
    ensures
        is_scalable(max_edge, width, height),
{
    if max_edge.0 is Some && !is_inside(max_edge, width, height) && width > 0 && height > 0 {
        let longest = picture::longest(width, height);
        let edge = max_edge.0->0 as nat;
        if edge > 0 {
            picture::lemma_fitted(height as nat, longest, edge);
        } else {
            picture::lemma_fitted_to_nothing(height as nat, longest);
        }
        let tall = picture::fitted(height as nat, longest, edge);
        assert(width * tall <= width * height) by (nonlinear_arith)
            requires
                tall <= height,
        ;
    }
}

/// A converted file is no larger than the edge either way, and no side of it is longer than
/// the source's.
pub proof fn law_a_converted_file_fits_the_edge(
    picture: (u32, u32, Layout, Seq<u32>),
    format: Format,
    quality: Quality,
    max_edge: MaxEdge,
    out: (Seq<u8>, u32, u32),
)
    requires
        picture.0 > 0,
        picture.1 > 0,
        can_shrink(picture, format, quality, max_edge, Some(out)),
    ensures
        max_edge.0 matches Some(edge) ==> edge > 0 ==> out.1 <= edge && out.2 <= edge,
        max_edge.0 matches Some(edge) ==> edge > 0 ==> out.1 <= picture.0 && out.2 <= picture.1,
        max_edge.0 matches Some(edge) ==> picture.0 <= edge && picture.1 <= edge ==> out.1
            == picture.0 && out.2 == picture.1,
        max_edge.0 is None ==> out.1 == picture.0 && out.2 == picture.1,
{
    let scaled = choose|scaled: (u32, u32, Layout, Seq<u32>)|
        {
            &&& #[trigger] can_scale(max_edge, picture, scaled)
            &&& out.1 == scaled.0
            &&& out.2 == scaled.1
        };
    law_a_scaled_picture_fits(max_edge, picture, scaled);
}

/// The fourth of the four samples of a pixel.
pub open spec fn fourth(samples: Seq<u32>, pixel: int) -> u32 {
    samples[4 * pixel + 3]
}

/// A picture with a pixel that can be seen through is never written lossy as WebP, whatever
/// the quality; one without, and one without alpha at all, is written lossy just where a
/// quality is asked for.
pub proof fn law_one_pixel_to_see_through_is_enough(
    width: u32,
    height: u32,
    samples: Seq<u32>,
    units: u32,
    out: Option<Seq<u8>>,
)
    ensures
        ({
            let quality = Quality(Some(units));
            let clear = exists|pixel: int|
                0 <= pixel < width * height && #[trigger] fourth(samples, pixel) != 255;
            let seen = (width, height, Layout::Rgba8, samples);
            let solid = (width, height, Layout::Rgb8, samples);
            &&& can_encode(seen, Format::WebP, quality, out) && clear ==> out is Some
                && picture::webp_lossless(width, height, Layout::Rgba8, samples).contains(out->0)
            &&& can_encode(seen, Format::WebP, quality, out) && !clear ==> picture::webp_lossy(
                width,
                height,
                Layout::Rgba8,
                samples,
                picture::quality_text(units as nat),
            ).contains(out)
            &&& can_encode(solid, Format::WebP, quality, out) ==> picture::webp_lossy(
                width,
                height,
                Layout::Rgb8,
                samples,
                picture::quality_text(units as nat),
            ).contains(out)
            &&& can_encode(seen, Format::WebP, Quality(None), out) ==> out is Some
                && picture::webp_lossless(width, height, Layout::Rgba8, samples).contains(out->0)
        }),
{
    let clear = exists|pixel: int|
        0 <= pixel < width * height && #[trigger] fourth(samples, pixel) != 255;
    let transparent = is_transparent(width, height, Layout::Rgba8, samples);
    if clear {
        let pixel = choose|pixel: int|
            0 <= pixel < width * height && #[trigger] fourth(samples, pixel) != 255;
        lemma_see_through(width, height, Layout::Rgba8, samples, pixel);
    }
    if transparent {
        let pixel = choose|pixel: int|
            0 <= pixel < width * height && !is_opaque(
                Layout::Rgba8,
                #[trigger] sample_at(samples, pixel, 4, 3),
            );
        assert(pixel * 4 + 3 == 4 * pixel + 3);
        assert(fourth(samples, pixel) != 255);
    }
}

/// Grey pictures with alpha, and pictures with longer samples, can be seen through where a
/// sample of alpha is not the largest there is.
pub proof fn law_alpha_is_the_last_sample_of_a_pixel(
    width: u32,
    height: u32,
    samples: Seq<u32>,
    pixel: int,
)
    requires
        0 <= pixel < width * height,
    ensures
        samples[4 * pixel + 3] != 255 ==> is_transparent(width, height, Layout::Rgba8, samples),
        samples[2 * pixel + 1] != 255 ==> is_transparent(width, height, Layout::LumaA8, samples),
        samples[4 * pixel + 3] != 65535 ==> is_transparent(width, height, Layout::Rgba16, samples),
        samples[2 * pixel + 1] != 65535 ==> is_transparent(width, height, Layout::LumaA16, samples),
        samples[4 * pixel + 3] < 0x3f80_0000 ==> is_transparent(
            width,
            height,
            Layout::Rgba32F,
            samples,
        ),
        !is_transparent(width, height, Layout::Rgb8, samples),
        !is_transparent(width, height, Layout::Luma8, samples),
        !is_transparent(width, height, Layout::Rgb16, samples),
        !is_transparent(width, height, Layout::Luma16, samples),
        !is_transparent(width, height, Layout::Rgb32F, samples),
{
    lemma_see_through(width, height, Layout::Rgba8, samples, pixel);
    lemma_see_through(width, height, Layout::LumaA8, samples, pixel);
    lemma_see_through(width, height, Layout::Rgba16, samples, pixel);
    lemma_see_through(width, height, Layout::LumaA16, samples, pixel);
    lemma_see_through(width, height, Layout::Rgba32F, samples, pixel);
}

proof fn lemma_see_through(
    width: u32,
    height: u32,
    layout: Layout,
    samples: Seq<u32>,
    pixel: int,
)
    requires
        0 <= pixel < width * height,
        has_alpha(layout),
    ensures
        !is_opaque(
            layout,
            samples[picture::channels(layout) * pixel + picture::channels(layout) - 1],
        ) ==> is_transparent(width, height, layout, samples),
{
    let n = picture::channels(layout);
    let alpha = sample_at(samples, pixel, n, n - 1);
    assert(pixel * n == n * pixel) by (nonlinear_arith);
    assert(alpha == samples[n * pixel + n - 1]);
}

/// A quality asked for is taken as it is from 1 to 100 and moved to the nearer end outside;
/// more asked for is never less. It is shown as the nearest whole number.
pub proof fn law_qualities_stay_in_their_range(units: i64, more: i64)
    requires
        units <= more,
    ensures
        8_388_608 <= clamped(units) <= 838_860_800,
        8_388_608 <= units <= 838_860_800 ==> clamped(units) == units,
        units <= 8_388_608 ==> clamped(units) == 8_388_608,
        units >= 838_860_800 ==> clamped(units) == 838_860_800,
        clamped(units) <= clamped(more),
        ({
            let whole = (clamped(units) + 4_194_304) / 8_388_608;
            &&& Quality(Some(clamped(units))).label_text() == "q"@ + text::decimal(whole as nat)
            &&& number::within_half(
                8_388_608 * whole,
                clamped(units) as int,
                8_388_608,
            )
        }),
{
}

/// Names that are names are all kept.
proof fn lemma_all_names(parts: Seq<Seq<char>>)
    requires
        forall|i: int| 0 <= i < parts.len() ==> paths::is_name(#[trigger] parts[i]),
    ensures
        paths::names(parts) == parts,
    decreases parts.len(),
{
    if parts.len() > 0 {
        let front = parts.drop_last();
        assert forall|i: int| 0 <= i < front.len() implies paths::is_name(#[trigger] front[i]) by {
            assert(front[i] == parts[i]);
        }
        lemma_all_names(front);
        assert(paths::is_name(parts[parts.len() - 1]));
        assert(front.push(parts.last()) =~= parts);
    } else {
        assert(paths::names(parts) =~= parts);
    }
}

/// A converted file lies in the output folder as its source lies in the root, under the same
/// name with the extension of the format.
pub proof fn law_a_converted_file_mirrors_its_source(
    root: Seq<char>,
    source: Seq<char>,
    out_dir: Seq<char>,
    folders: Seq<Seq<char>>,
    stem: Seq<char>,
    extension: Seq<char>,
)
    requires
        paths::components(source) == paths::components(root) + folders.push(
            stem + seq!['.'] + extension,
        ),
        forall|i: int| 0 <= i < folders.len() ==> paths::is_name(#[trigger] folders[i]),
        stem.len() > 0,
        extension.len() > 0,
        !extension.contains('.'),
    ensures
        output_parts(root, source, out_dir, Format::WebP) == paths::components(out_dir)
            + folders.push(stem + seq!['.', 'w', 'e', 'b', 'p']),
        output_parts(root, source, out_dir, Format::Avif) == paths::components(out_dir)
            + folders.push(stem + seq!['.', 'a', 'v', 'i', 'f']),
{
    let base = paths::components(root);
    let name = stem + seq!['.'] + extension;
    let rest = folders.push(name);
    let parts = paths::components(source);
    assert(base =~= parts.subrange(0, base.len() as int));
    assert(parts.skip(base.len() as int) =~= rest);
    assert(name.len() >= 3);
    assert forall|i: int| 0 <= i < rest.len() implies paths::is_name(#[trigger] rest[i]) by {
        if i < folders.len() {
            assert(rest[i] == folders[i]);
        }
    }
    lemma_all_names(rest);
    paths::law_the_last_dot_parts_a_name(stem, extension);
    assert(rest.drop_last() =~= folders);
    reveal_strlit("webp");
    reveal_strlit("avif");
    assert(stem + seq!['.'] + "webp"@ =~= stem + seq!['.', 'w', 'e', 'b', 'p']);
    assert(stem + seq!['.'] + "avif"@ =~= stem + seq!['.', 'a', 'v', 'i', 'f']);
}

/// No two files of a run are written to one path. The first to want a path has it, and one
/// that comes later has a number put before the extension, beginning at two.
pub proof fn law_no_two_files_share_a_path(
    root: Seq<char>,
    sources: Seq<String>,
    out_dir: Seq<char>,
    format: Format,
    outputs: Seq<String>,
    i: int,
    j: int,
)
    requires
        sources.len() == outputs.len(),
        0 <= i < j < outputs.len(),
        forall|k: int|
            0 <= k < outputs.len() ==> is_planned(
                root,
                (#[trigger] sources[k])@,
                out_dir,
                format,
                outputs,
                k,
            ),
    ensures
        outputs[i]@ != outputs[j]@,
        outputs[0]@ == paths::path_text(output_parts(root, sources[0]@, out_dir, format)),
{
    assert(is_planned(root, sources[j]@, out_dir, format, outputs, j));
    assert(is_planned(root, sources[0]@, out_dir, format, outputs, 0));
    if outputs[i]@ == outputs[j]@ {
        assert(is_taken(outputs, j, outputs[j]@));
    }
}

/// The number of a file stands before its extension.
pub proof fn law_numbers_stand_before_the_extension(front: Seq<char>, n: nat)
    ensures
        numbered(front + seq!['.'] + "webp"@, seq!['.'] + "webp"@, n) == front + seq!['-']
            + text::decimal(n) + seq!['.'] + "webp"@,
        numbered(front + seq!['.'] + "avif"@, seq!['.'] + "avif"@, n) == front + seq!['-']
            + text::decimal(n) + seq!['.'] + "avif"@,
{
    lemma_numbered(front, "webp"@, n);
    lemma_numbered(front, "avif"@, n);
}

proof fn lemma_numbered(front: Seq<char>, extension: Seq<char>, n: nat)
    ensures
        numbered(front + seq!['.'] + extension, seq!['.'] + extension, n) == front + seq!['-']
            + text::decimal(n) + seq!['.'] + extension,
{
    let (wanted, ending) = (front + seq!['.'] + extension, seq!['.'] + extension);
    assert(wanted =~= front + ending);
    assert(ending =~= wanted.subrange(wanted.len() - ending.len(), wanted.len() as int));
    assert(wanted.take(wanted.len() - ending.len()) =~= front);
    assert(numbered(wanted, ending, n) =~= front + seq!['-'] + text::decimal(n) + seq!['.']
        + extension);
}

/// Pictures of up to 16383 pixels along a side are written as WebP, and those with pixels at
/// all as AVIF.
pub proof fn law_ordinary_pictures_are_encoded(width: u32, height: u32, layout: Layout)
    requires
        0 < width,
        0 < height,
    ensures
        is_encodable(width, height, layout, Format::Avif),
        width <= 16_383 && height <= 16_383 ==> is_encodable(width, height, layout, Format::WebP),
{
}

/// A file whose path is taken has the first number that is free, from two up.
pub proof fn law_the_first_free_number_is_taken(
    root: Seq<char>,
    source: Seq<char>,
    out_dir: Seq<char>,
    format: Format,
    outputs: Seq<String>,
    i: int,
    n: nat,
)
    requires
        is_planned(root, source, out_dir, format, outputs, i),
        is_taken(
            outputs,
            i,
            paths::path_text(output_parts(root, source, out_dir, format)),
        ),
        n >= 2,
        !is_taken(
            outputs,
            i,
            numbered(
                paths::path_text(output_parts(root, source, out_dir, format)),
                seq!['.'] + format_text(format),
                n,
            ),
        ),
        forall|m: nat|
            2 <= m < n ==> is_taken(
                outputs,
                i,
                #[trigger] numbered(
                    paths::path_text(output_parts(root, source, out_dir, format)),
                    seq!['.'] + format_text(format),
                    m,
                ),
            ),
    ensures
        outputs[i]@ == numbered(
            paths::path_text(output_parts(root, source, out_dir, format)),
            seq!['.'] + format_text(format),
            n,
        ),
{
    let wanted = paths::path_text(output_parts(root, source, out_dir, format));
    let ending = seq!['.'] + format_text(format);
    let k = choose|k: nat|
        {
            &&& k >= 2
            &&& outputs[i]@ == #[trigger] numbered(wanted, ending, k)
            &&& !is_taken(outputs, i, outputs[i]@)
            &&& forall|m: nat| 2 <= m < k ==> is_taken(
                outputs,
                i,
                #[trigger] numbered(wanted, ending, m),
            )
        };
    assert(k == n) by {
        if n < k {
            assert(is_taken(outputs, i, numbered(wanted, ending, n)));
        }
        if k < n {
            assert(is_taken(outputs, i, numbered(wanted, ending, k)));
        }
    }
}

/// Whatever quality is asked for, the one that is taken is in range, and every one in range
/// is taken as it is.
pub proof fn law_every_quality_in_range_can_be_taken(units: i64)
    ensures
        Quality(Some(clamped(units))).in_range(),
        Quality(None).in_range(),
        0 <= units <= u32::MAX && Quality(Some(units as u32)).in_range() ==> clamped(units) == units,
{
}

} // verus!
