//! Turn a file's bytes into something the window can draw.

use crate::picture;
use crate::picture::Layout;
use image::DynamicImage;
use vstd::prelude::*;

verus! {

/// Longest edge of a generated thumbnail, in pixels: enough to fill the widest
/// gallery tile.
pub const THUMB_EDGE: u32 = 240;

/// Pixels ready to draw: blue, green, red and alpha, one byte each, row by row.
#[derive(Debug)]
pub struct Drawing {
    pub width: u32,
    pub height: u32,
    pub bgra: Vec<u8>,
}

/// Where the byte at `i` comes from when red and blue trade places in each whole pixel.
pub open spec fn traded(i: int, len: int) -> int {
    if i / 4 * 4 + 4 > len {
        i
    } else if i % 4 == 0 {
        i + 2
    } else if i % 4 == 2 {
        i - 2
    } else {
        i
    }
}

/// `samples` with red and blue in each other's place.
pub open spec fn swapped(samples: Seq<u8>) -> Seq<u8> {
    Seq::new(samples.len(), |i: int| samples[traded(i, samples.len() as int)])
}

/// The window wants blue first, and decoders give red first. Swap in place rather
/// than allocating a second buffer per thumbnail.
pub fn to_bgra(samples: Vec<u8>) -> (out: Vec<u8>)
    ensures
        out@ == swapped(samples@),
{
    let mut out = samples;
    let len: usize = out.len();
    let mut at: usize = 0;
    while len - at >= 4
        invariant
            at <= len,
            at % 4 == 0,
            len == out@.len() == samples@.len(),
            forall|i: int| 0 <= i < at ==> out@[i] == swapped(samples@)[i],
            forall|i: int| at <= i < len ==> out@[i] == samples@[i],
        decreases len - at,
    {
        let (red, blue) = (out[at], out[at + 2]);
        out.set(at, blue);
        out.set(at + 2, red);
        proof {
            assert forall|i: int| 0 <= i < at + 4 implies out@[i] == swapped(samples@)[i] by {
                if at <= i {
                    assert(i / 4 * 4 == at);
                    assert(i == at || i == at + 1 || i == at + 2 || i == at + 3);
                }
            }
        }
        at += 4;
    }
    assert(out@ =~= swapped(samples@));
    out
}

/// Swapping red and blue twice gives the samples back.
pub proof fn law_swapping_twice_is_nothing(samples: Seq<u8>)
    ensures
        swapped(swapped(samples)) == samples,
{
    assert forall|i: int| 0 <= i < samples.len() implies swapped(swapped(samples))[i]
        == samples[i] by {
        let n = samples.len() as int;
        let j = traded(i, n);
        assert(0 <= j < n);
        assert(traded(j, n) == i);
    }
    assert(swapped(swapped(samples)) =~= samples);
}

/// A picture with these contents can be drawn as `out`.
pub open spec fn can_draw(picture: (u32, u32, Layout, Seq<u32>), out: Drawing) -> bool {
    &&& out.width == picture.0
    &&& out.height == picture.1
    &&& exists|pixels: Seq<u8>|
        #[trigger] picture::as_rgba(picture.0, picture.1, picture.2, picture.3).contains(pixels)
            && out.bgra@ == swapped(pixels)
}

/// A picture, ready to draw.
pub fn draw(image: &DynamicImage) -> (out: Drawing)
    requires
        picture::is_exact(*image),
    ensures
        can_draw(picture::contents(*image), out),
        out.bgra@.len() == 4 * (out.width * out.height),
{
    let (width, height) = (picture::width(image), picture::height(image));
    let pixels = picture::rgba_samples(image);
    let ghost before = pixels@;
    let bgra = to_bgra(pixels);
    let out = Drawing { width, height, bgra };
    proof {
        let (w, h, layout, samples) = picture::contents(*image);
        assert(picture::as_rgba(w, h, layout, samples).contains(before));
        assert(out.bgra@ == swapped(before));
    }
    out
}

/// What a thumbnail of a file at this path with these bytes can be: a drawing scaled to
/// the box, or nothing where the file does not decode to a picture that has a thumbnail.
pub open spec fn can_thumbnail(
    path: Seq<char>,
    bytes: Seq<u8>,
    edge: u32,
    out: Option<Drawing>,
) -> bool {
    exists|read: Option<(u32, u32, Layout, Seq<u32>)>|
        #[trigger] picture::opened(path, bytes).contains(read) && match read {
            None => out is None,
            Some((width, height, layout, samples)) => if picture::has_thumbnail(
                width,
                height,
                layout,
                edge,
            ) {
                out is Some && can_shrink_to(width, height, layout, samples, edge, out->0)
            } else {
                out is None
            },
        }
}

/// The picture, scaled to fit the box, can be drawn as `out`.
pub open spec fn can_shrink_to(
    width: u32,
    height: u32,
    layout: Layout,
    samples: Seq<u32>,
    edge: u32,
    out: Drawing,
) -> bool {
    let longest = picture::longest(width, height);
    &&& out.width == picture::fitted(width as nat, longest, edge as nat)
    &&& out.height == picture::fitted(height as nat, longest, edge as nat)
    &&& exists|small: Seq<u32>|
        #[trigger] picture::shrunk(width, height, layout, samples, edge).contains(small)
            && can_draw((out.width, out.height, layout, small), out)
}

/// Decode a file, scale it to fit `edge`, and hand back something to draw. `None` for
/// anything that fails to decode or has too many pixels to the one, which the caller
/// shows as a gap rather than an error: a folder of holiday photos will contain a broken
/// file. The long edge fills the box.
pub fn load(path: &str, bytes: &Vec<u8>, edge: u32) -> (out: Option<Drawing>)
    ensures
        can_thumbnail(path@, bytes@, edge, out),
        out matches Some(drawing) ==> picture::longest(drawing.width, drawing.height) == if edge
            > 0 {
            edge as nat
        } else {
            1
        },
{
    match picture::open(path, bytes) {
        Some(image) => {
            let ghost read = Some(picture::contents(image));
            assert(picture::opened(path@, bytes@).contains(read));
            let (width, height) = (picture::width(&image), picture::height(&image));
            if !picture::thumbnailable(width, height, picture::layout(&image), edge) {
                return None;
            }
            let small = picture::thumbnail(&image, edge);
            let out = draw(&small);
            proof {
                let (w, h, layout, samples) = picture::contents(image);
                assert(picture::shrunk(w, h, layout, samples, edge).contains(
                    picture::picture_samples(small),
                ));
                assert(can_shrink_to(w, h, layout, samples, edge, out));
                let longest = picture::longest(w, h);
                if edge > 0 {
                    picture::lemma_fitted(w as nat, longest, edge as nat);
                    picture::lemma_fitted(h as nat, longest, edge as nat);
                } else {
                    picture::lemma_fitted_to_nothing(w as nat, longest);
                    picture::lemma_fitted_to_nothing(h as nat, longest);
                }
            }
            Some(out)
        },
        None => {
            assert(picture::opened(path@, bytes@).contains(None));
            None
        },
    }
}

/// A picture of red, green, blue and alpha is drawn as blue, green, red and alpha, pixel by
/// pixel: red and blue trade places, and green and alpha stay.
pub proof fn law_red_and_blue_trade_places(samples: Seq<u8>, pixel: int)
    requires
        0 <= pixel,
        4 * pixel + 4 <= samples.len(),
    ensures
        swapped(samples).len() == samples.len(),
        swapped(samples)[4 * pixel] == samples[4 * pixel + 2],
        swapped(samples)[4 * pixel + 1] == samples[4 * pixel + 1],
        swapped(samples)[4 * pixel + 2] == samples[4 * pixel],
        swapped(samples)[4 * pixel + 3] == samples[4 * pixel + 3],
{
}

} // verus!
