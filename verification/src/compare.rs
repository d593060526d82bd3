//! Build an original-versus-converted pair for pixel peeping.
//!
//! The conversion happens in memory. Nothing is written, because the point is to
//! decide whether the trade is acceptable before committing to it.

use crate::convert;
use crate::convert::{Format, MaxEdge, Quality};
use crate::number;
use crate::number::{Number, Precision};
use crate::picture;
use crate::picture::Layout;
use crate::thumbs;
use crate::thumbs::Drawing;
use vstd::prelude::*;

verus! {

/// Both sides of a comparison.
#[derive(Debug)]
pub struct Pair {
    pub original: Drawing,
    pub converted: Drawing,
    /// Bytes the encoded file would occupy on disk.
    pub converted_bytes: u64,
    pub width: u32,
    pub height: u32,
}

/// A share of something in percent, and whether it is below zero.
#[derive(Clone, Copy, Debug, PartialEq, Eq, Structural)]
pub struct Percent {
    pub negative: bool,
    pub size: Number,
}

/// `part / of * 100` in single precision.
pub open spec fn hundredfold(part: (nat, int), of: (nat, int)) -> (nat, int) {
    number::product(
        number::quotient(part, of, Precision::Single),
        number::nearest(100, 1, Precision::Single),
        Precision::Single,
    )
}

/// What a file of `after` bytes saves of `before`, in percent of `before`, each step
/// in single precision. Nothing is saved of nothing.
pub open spec fn saved_percent(before: nat, after: nat) -> (bool, (nat, int)) {
    let (a, b) = (
        number::nearest(before, 1, Precision::Single),
        number::nearest(after, 1, Precision::Single),
    );
    if before == 0 {
        (false, (0, 0))
    } else {
        (number::below(a, b), hundredfold(number::gap(a, b, Precision::Single), a))
    }
}

/// What a file of `after` bytes saves of `before`, in percent of `before`. Negative
/// when the file grew.
pub fn saving(before: u64, after: u64) -> (out: Percent)
    ensures
        (out.negative, out.size.parts()) == saved_percent(before as nat, after as nat),
        out.size.fills(Precision::Single),
        out.size.exponent <= 73,
{
    if before == 0 {
        return Percent { negative: false, size: Number { significand: 0, exponent: 0 } };
    }
    let a = number::whole(before, Precision::Single);
    let b = number::whole(after, Precision::Single);
    let apart = number::minus(a, b);
    let share = number::divide(apart, a, Precision::Single);
    let hundred = number::whole(100, Precision::Single);
    let size = number::multiply(share, hundred, Precision::Single);
    proof {
        number::lemma_stands_below(a, b, Precision::Single);
    }
    Percent { negative: number::less(a, b), size }
}

impl Pair {
    /// What the conversion saved, as a percentage. Negative when the file grew.
    pub fn saving_percent(&self, source_bytes: u64) -> (out: Percent)
        ensures
            (out.negative, out.size.parts()) == saved_percent(
                source_bytes as nat,
                self.converted_bytes as nat,
            ),
            out.size.fills(Precision::Single),
            out.size.exponent <= 73,
    {
        saving(source_bytes, self.converted_bytes)
    }
}

/// What a comparison of a picture with these contents can show: the picture scaled to
/// the edge on one side, and on the other the same picture encoded and decoded again.
/// Nothing where it cannot be scaled or encoded, or the encoded file does not decode.
pub open spec fn can_pair(
    picture: (u32, u32, Layout, Seq<u32>),
    format: Format,
    quality: Quality,
    max_edge: MaxEdge,
    out: Option<Pair>,
) -> bool {
    if !convert::is_scalable(max_edge, picture.0, picture.1) {
        out is None
    } else {
        exists|scaled: (u32, u32, Layout, Seq<u32>)|
            {
                &&& #[trigger] convert::can_scale(max_edge, picture, scaled)
                &&& if !convert::is_encodable(scaled.0, scaled.1, scaled.2, format) {
                    out is None
                } else {
                    exists|file: Option<Seq<u8>>|
                        #[trigger] convert::can_encode(scaled, format, quality, file) && can_show(
                            scaled,
                            file,
                            out,
                        )
                }
            }
    }
}

/// The pair shows the scaled picture against what its encoded file decodes to.
pub open spec fn can_show(
    scaled: (u32, u32, Layout, Seq<u32>),
    file: Option<Seq<u8>>,
    out: Option<Pair>,
) -> bool {
    match file {
        None => out is None,
        Some(bytes) => can_show_file(scaled, bytes, out),
    }
}

/// The pair shows the scaled picture against what the file decodes to.
pub open spec fn can_show_file(
    scaled: (u32, u32, Layout, Seq<u32>),
    file: Seq<u8>,
    out: Option<Pair>,
) -> bool {
    exists|read: Option<(u32, u32, Layout, Seq<u32>)>|
        #[trigger] picture::decoded(file).contains(read) && match read {
            None => out is None,
            Some(back) => {
                &&& out matches Some(pair)
                &&& thumbs::can_draw(scaled, pair.original)
                &&& thumbs::can_draw(back, pair.converted)
                &&& pair.converted_bytes == file.len()
                &&& pair.width == scaled.0
                &&& pair.height == scaled.1
            },
        }
}

/// What a comparison of a file at this path with these bytes can show.
pub open spec fn can_build(
    path: Seq<char>,
    bytes: Seq<u8>,
    format: Format,
    quality: Quality,
    max_edge: MaxEdge,
    out: Option<Pair>,
) -> bool {
    exists|read: Option<(u32, u32, Layout, Seq<u32>)>|
        #[trigger] picture::opened(path, bytes).contains(read) && match read {
            None => out is None,
            Some(picture) => can_pair(picture, format, quality, max_edge, out),
        }
}

/// Decode a file, encode it at `quality`, and decode that back, so both sides are
/// real pixels rather than a promise. Through WebP both sides have one size.
pub fn build(
    path: &str,
    bytes: &Vec<u8>,
    format: Format,
    quality: Quality,
    max_edge: MaxEdge,
) -> (out: Option<Pair>)
    requires
        quality.in_range(),
    ensures
        can_build(path@, bytes@, format, quality, max_edge, out),
        format is WebP && out is Some ==> {
            let pair = out->0;
            &&& pair.original.width == pair.converted.width == pair.width
            &&& pair.original.height == pair.converted.height == pair.height
        },
{
    let image = match picture::open(path, bytes) {
        Some(image) => image,
        None => {
            assert(picture::opened(path@, bytes@).contains(None));
            return None;
        },
    };
    let ghost read = Some(picture::contents(image));
    assert(picture::opened(path@, bytes@).contains(read));
    if !max_edge.scales(picture::width(&image), picture::height(&image)) {
        return None;
    }
    let scaled = max_edge.apply(image);
    let ghost seen = picture::contents(scaled);
    assert(convert::can_scale(max_edge, picture::contents(image), seen));
    let (width, height) = (picture::width(&scaled), picture::height(&scaled));
    if !convert::encodable(width, height, picture::layout(&scaled), format) {
        return None;
    }
    let file = convert::encode(&scaled, format, quality);
    let ghost written = convert::file_view(file);
    assert(convert::can_encode(seen, format, quality, written));
    let file = match file {
        Some(file) => file,
        None => {
            assert(can_show(seen, written, None));
            return None;
        },
    };
    assert(written == Some(file@));
    let back = match picture::load(&file) {
        Some(back) => back,
        None => {
            assert(picture::decoded(file@).contains(None));
            assert(can_show_file(seen, file@, None));
            assert(can_show(seen, written, None));
            return None;
        },
    };
    let ghost seen_back = Some(picture::contents(back));
    assert(picture::decoded(file@).contains(seen_back));
    let out = Some(
        Pair {
            original: thumbs::draw(&scaled),
            converted: thumbs::draw(&back),
            converted_bytes: file.len() as u64,
            width,
            height,
        },
    );
    proof {
        let pair = out->0;
        assert(thumbs::can_draw(seen, pair.original));
        assert(thumbs::can_draw(seen_back->0, pair.converted));
        assert(can_show_file(seen, file@, out));
        assert(can_show(seen, written, out));
    }
    out
}

/// A file that became no larger saves, and one that became twice as large grew. As many
/// bytes save nothing, half as many save 50 percent, none at all 100 percent, and twice as
/// many are 100 percent more.
pub proof fn law_savings_are_percent_of_the_source(before: nat, after: nat)
    requires
        before > 0,
    ensures
        ({
            let (grew, size) = saved_percent(before, after);
            &&& after <= before ==> !grew
            &&& 2 * before <= after ==> grew
            &&& after == before ==> size == (0nat, 0int)
            &&& 2 * after == before ==> size == number::nearest(50, 1, Precision::Single)
            &&& after == 0 ==> size == number::nearest(100, 1, Precision::Single)
            &&& after == 2 * before ==> size == number::nearest(100, 1, Precision::Single)
        }),
{
    let single = Precision::Single;
    let (a, b) = (number::nearest(before, 1, single), number::nearest(after, 1, single));
    let hundred = number::nearest(100, 1, single);
    number::lemma_nearest_fills(before, 1, single);
    number::lemma_nearest_fills(100, 1, single);
    number::lemma_filled_is_itself(a.0, single);
    vstd::arithmetic::power2::lemma2_to64();
    number::lemma_nearest_shifts(50, 1, 1, single);
    number::lemma_nearest_fills(50, 1, single);
    number::lemma_times_a_power(hundred, 0, single);
    number::lemma_times_a_power(hundred, -1, single);
    number::lemma_over_itself(a, single);
    let unit = number::lower(a, b);
    if after <= before {
        number::law_rounding_keeps_the_order(after, 1, before, 1, single);
    }
    if 2 * before <= after {
        number::law_ratios_go_with_their_counts(before, 1, after, 1, single);
        number::lemma_nearest_shifts(before, 1, 1, single);
        assert(before * vstd::arithmetic::power2::pow2(1) == 2 * before);
        number::law_rounding_keeps_the_order(2 * before, 1, after, 1, single);
        number::lemma_double_is_above(a, b);
    }
    if after == before {
        assert(number::gap(a, b, single) == (0nat, 0int));
        assert(0 * hundred.0 == 0) by (nonlinear_arith);
    }
    if 2 * after == before {
        number::lemma_nearest_shifts(after, 1, 1, single);
        assert(after * vstd::arithmetic::power2::pow2(1) == before);
        number::lemma_nearest_fills(after, 1, single);
        assert(a == (b.0, b.1 + 1));
        assert(number::in_units(a, b.1) == b.0 * 2 && number::in_units(b, b.1) == b.0 * 1);
        assert(number::gap(a, b, single) == b);
        number::lemma_over_itself_shifted(b, 1, single);
    }
    if after == 0 {
        let j = (a.1 - unit) as nat;
        number::lemma_nearest_shifts(a.0, 1, j, single);
        let p = vstd::arithmetic::power2::pow2((0 - unit) as nat);
        assert(0 * p == 0) by (nonlinear_arith);
        assert(number::in_units(b, unit) == 0);
        assert(number::gap(a, b, single) == a);
    }
    if after == 2 * before {
        number::lemma_nearest_shifts(before, 1, 1, single);
        assert(before * vstd::arithmetic::power2::pow2(1) == after);
        assert(b == (a.0, a.1 + 1));
        assert(number::in_units(b, a.1) == a.0 * 2 && number::in_units(a, a.1) == a.0 * 1);
        assert(number::gap(a, b, single) == a);
    }
}

} // verus!
