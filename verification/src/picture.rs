//! Decoded pictures, and what the image crates do with them.
//!
//! A picture is an `image::DynamicImage`, seen through its width, its height, how its
//! samples are laid out, and the samples themselves. What an encoder or a filter
//! makes of them depends on the machine it runs on, so its result is stated as one
//! of the outcomes that its arguments allow.

use crate::convert;
use crate::number;
use crate::number::Precision;
use crate::scan;
use crate::text;
use image::{DynamicImage, ImageFormat, ImageReader};
use rgb::FromSlice;
use std::io::Cursor;
use vstd::arithmetic::mul::*;
use vstd::arithmetic::power::*;
use vstd::arithmetic::power2::*;
use vstd::prelude::*;

verus! {

/// `image::DynamicImage`, held and handed on as it is.
#[verifier::external_type_specification]
#[verifier::external_body]
pub struct ExDynamicImage(image::DynamicImage);

/// How the samples of a picture are laid out.
#[derive(Clone, Copy, Debug, PartialEq, Eq, Structural)]
pub enum Layout {
    Luma8,
    LumaA8,
    Rgb8,
    Rgba8,
    Luma16,
    LumaA16,
    Rgb16,
    Rgba16,
    Rgb32F,
    Rgba32F,
}

/// Samples per pixel.
pub open spec fn channels(layout: Layout) -> nat {
    match layout {
        Layout::Luma8 | Layout::Luma16 => 1,
        Layout::LumaA8 | Layout::LumaA16 => 2,
        Layout::Rgb8 | Layout::Rgb16 | Layout::Rgb32F => 3,
        Layout::Rgba8 | Layout::Rgba16 | Layout::Rgba32F => 4,
    }
}

/// Samples of one byte.
pub open spec fn is_bytes(layout: Layout) -> bool {
    layout is Luma8 || layout is LumaA8 || layout is Rgb8 || layout is Rgba8
}

/// Samples of two bytes.
pub open spec fn is_words(layout: Layout) -> bool {
    layout is Luma16 || layout is LumaA16 || layout is Rgb16 || layout is Rgba16
}

/// Floating-point samples.
pub open spec fn is_floats(layout: Layout) -> bool {
    layout is Rgb32F || layout is Rgba32F
}

/// Width of a picture in pixels.
pub uninterp spec fn picture_width(picture: DynamicImage) -> u32;

/// Height of a picture in pixels.
pub uninterp spec fn picture_height(picture: DynamicImage) -> u32;

/// How the samples of a picture are laid out.
pub uninterp spec fn picture_layout(picture: DynamicImage) -> Layout;

/// The samples a picture holds, row by row, pixel by pixel: integers as they are,
/// floats by their bits.
pub uninterp spec fn picture_samples(picture: DynamicImage) -> Seq<u32>;

/// How many samples the pixels of a picture take.
pub open spec fn sample_count(picture: DynamicImage) -> nat {
    (picture_width(picture) * picture_height(picture)) as nat * channels(picture_layout(picture))
}

/// The picture holds the samples its pixels take, and no more.
pub open spec fn is_exact(picture: DynamicImage) -> bool {
    picture_samples(picture).len() == sample_count(picture)
}

/// What a picture shows: its size, its layout and its samples.
pub open spec fn contents(picture: DynamicImage) -> (u32, u32, Layout, Seq<u32>) {
    (
        picture_width(picture),
        picture_height(picture),
        picture_layout(picture),
        picture_samples(picture),
    )
}

/// `DynamicImage::width`.
#[verifier::external_body]
pub(crate) fn width(picture: &DynamicImage) -> (out: u32)
    ensures
        out == picture_width(*picture),
{
    picture.width()
}

/// `DynamicImage::height`.
#[verifier::external_body]
pub(crate) fn height(picture: &DynamicImage) -> (out: u32)
    ensures
        out == picture_height(*picture),
{
    picture.height()
}

/// The variant of a `DynamicImage` says how its samples are laid out.
#[verifier::external_body]
pub(crate) fn layout(picture: &DynamicImage) -> (out: Layout)
    ensures
        out == picture_layout(*picture),
{
    match picture {
        DynamicImage::ImageLuma8(_) => Layout::Luma8,
        DynamicImage::ImageLumaA8(_) => Layout::LumaA8,
        DynamicImage::ImageRgb8(_) => Layout::Rgb8,
        DynamicImage::ImageRgba8(_) => Layout::Rgba8,
        DynamicImage::ImageLuma16(_) => Layout::Luma16,
        DynamicImage::ImageLumaA16(_) => Layout::LumaA16,
        DynamicImage::ImageRgb16(_) => Layout::Rgb16,
        DynamicImage::ImageRgba16(_) => Layout::Rgba16,
        DynamicImage::ImageRgb32F(_) => Layout::Rgb32F,
        _ => Layout::Rgba32F,
    }
}

/// `DynamicImage::as_flat_samples_u8` hands out the sample buffer of a picture with
/// one-byte samples, which holds at least what the pixels take.
#[verifier::external_body]
pub(crate) fn byte_samples(picture: &DynamicImage) -> (out: Option<Vec<u8>>)
    ensures
        out is Some == is_bytes(picture_layout(*picture)),
        out matches Some(samples) ==> {
            &&& samples@.len() == picture_samples(*picture).len() >= sample_count(*picture)
            &&& forall|i: int|
                0 <= i < samples@.len() ==> picture_samples(*picture)[i] == #[trigger] samples@[i]
        },
{
    Some(picture.as_flat_samples_u8()?.samples.to_vec())
}

/// `DynamicImage::as_flat_samples_u16` hands out the sample buffer of a picture with
/// two-byte samples, which holds at least what the pixels take.
#[verifier::external_body]
pub(crate) fn word_samples(picture: &DynamicImage) -> (out: Option<Vec<u16>>)
    ensures
        out is Some == is_words(picture_layout(*picture)),
        out matches Some(samples) ==> {
            &&& samples@.len() == picture_samples(*picture).len() >= sample_count(*picture)
            &&& forall|i: int|
                0 <= i < samples@.len() ==> picture_samples(*picture)[i] == #[trigger] samples@[i]
        },
{
    Some(picture.as_flat_samples_u16()?.samples.to_vec())
}

/// `DynamicImage::as_flat_samples_f32` hands out the sample buffer of a picture with
/// floating-point samples, which holds at least what the pixels take; here each sample by
/// its bits.
#[verifier::external_body]
pub(crate) fn float_samples(picture: &DynamicImage) -> (out: Option<Vec<u32>>)
    ensures
        out is Some == is_floats(picture_layout(*picture)),
        out matches Some(samples) ==> {
            &&& samples@.len() == picture_samples(*picture).len() >= sample_count(*picture)
            &&& samples@ == picture_samples(*picture)
        },
{
    let samples = picture.as_flat_samples_f32()?.samples;
    Some(samples.iter().map(|sample| sample.to_bits()).collect())
}

/// How long a side becomes when the longest side is scaled to `edge`, the ratio and
/// the product in double precision: at least one pixel.
pub open spec fn fitted(side: nat, longest: nat, edge: nat) -> nat {
    let scaled = number::half_up(
        number::product(
            number::nearest(side, 1, Precision::Double),
            scan::ratio(edge, longest, Precision::Double),
            Precision::Double,
        ),
    );
    if scaled < 1 {
        1
    } else {
        scaled
    }
}

/// What a side comes to before it is a whole number of pixels: `top / bottom`, close to
/// the exact share of the edge, with `whole` the nearest whole number to it.
spec fn is_share(side: nat, longest: nat, edge: nat, top: int, bottom: int, whole: int) -> bool {
    let off = 0x4_0000_0000_0000 * (top * longest - (side * edge) * bottom);
    &&& top >= 0
    &&& bottom > 0
    &&& -(longest * top) <= off <= longest * top
    &&& 2 * (bottom * whole) <= 2 * top + bottom < 2 * (bottom * whole) + 2 * bottom
}

/// The ratio is rounded once and the product once, each to within half of its last
/// place.
#[verifier::spinoff_prover]
proof fn lemma_share(side: nat, longest: nat, edge: nat) -> (out: (int, int))
    requires
        0 < side <= 0xffff_ffff,
        0 < longest <= 0xffff_ffff,
        0 < edge <= 0xffff_ffff,
    ensures
        is_share(
            side,
            longest,
            edge,
            out.0,
            out.1,
            number::half_up(
                number::product(
                    number::nearest(side, 1, Precision::Double),
                    scan::ratio(edge, longest, Precision::Double),
                    Precision::Double,
                ),
            ) as int,
        ),
{
    let precision = Precision::Double;
    let bound = number::limit(precision);
    lemma2_to64();
    lemma2_to64_rest();
    number::lemma_small_is_exact(side, precision);
    number::lemma_small_is_exact(longest, precision);
    number::lemma_small_is_exact(edge, precision);
    let (sm, es) = number::nearest(side, 1, precision);
    let (lm, el) = number::nearest(longest, 1, precision);
    let (dm, ed) = number::nearest(edge, 1, precision);
    let (pa, pb, pc) = (pow2((-es) as nat), pow2((-el) as nat), pow2((-ed) as nat));
    let one = pow2(0);

    // The ratio.
    let (x, y) = (pow2(53), pow2(51));
    lemma_unit(lm);
    assert(bound * lm <= 2 * (dm * x)) by (nonlinear_arith)
        requires
            bound <= 2 * dm,
            lm < bound,
            x == bound,
    ;
    assert(dm * y < bound * lm) by (nonlinear_arith)
        requires
            dm < bound,
            bound <= 2 * lm,
            4 * y == bound,
            bound > 0,
    ;
    assert(number::top(dm, -53) == dm * x && number::bottom(lm, -53) == lm * one);
    assert(number::top(dm, -51) == dm * y && number::bottom(lm, -51) == lm * one);
    number::lemma_nearest_is_near(dm, lm, precision, -53, -51);
    let (mq, e0) = number::nearest(dm, lm, precision);
    let pz = pow2((-e0) as nat);
    assert(number::top(dm, e0) == dm * pz && number::bottom(lm, e0) == lm * one);
    assert(number::within_half((mq * lm) as int, (dm * pz) as int, lm as int));

    // The product.
    let n = sm * mq;
    lemma_unit(n);
    assert(bound <= 2 * n) by (nonlinear_arith)
        requires
            n == sm * mq,
            bound <= 2 * sm,
            mq > 0,
    ;
    assert(n < bound * x) by (nonlinear_arith)
        requires
            n == sm * mq,
            sm < bound,
            mq < bound,
            x == bound,
    ;
    assert(number::top(n, 0) == n * one && number::bottom(1, 0) == one);
    assert(number::top(n, 53) == n * one && number::bottom(1, 53) == x);
    number::lemma_nearest_is_near(n, 1, precision, 0, 53);
    let (mp, e1) = number::nearest(n, 1, precision);
    let pe = pow2(e1 as nat);
    lemma_pow2_pos(e1 as nat);
    assert(number::top(n, e1) == n * one && number::bottom(1, e1) == pe);
    let u = mp * pe;
    assert(number::within_half(u as int, n as int, pe as int));

    // Both together.
    let ep = e1 + es + e0 + ed - el;
    assert(number::product(
        (sm, es),
        number::quotient((dm, ed), (lm, el), precision),
        precision,
    ) == (mp, ep));
    lemma_pow2_adds((-es) as nat, (-ed) as nat);
    lemma_pow2_adds((-es - ed) as nat, (-e0) as nat);
    lemma_pow2_adds(e1 as nat, (-el) as nat);
    let bottom = pow2((-es - ed - e0) as nat);
    lemma_pow2_pos((-es - ed - e0) as nat);
    lemma_pow2_pos((-el) as nat);
    lemma_pow2_pos((-es) as nat);
    let top = u * pb;
    lemma_off(side, longest, edge, sm, lm, dm, mq, u, mp, pa, pb, pc, pz, pe, bottom);

    // The whole number.
    let (t, b) = (number::top(mp, -ep), number::bottom(1, -ep));
    let (up, down) = (number::above(ep), number::above(-ep));
    lemma_pow2_adds((e1 - el) as nat, down);
    lemma_pow2_adds(up, (-es - ed - e0) as nat);
    assert((e1 - el) + down == up + (-es - ed - e0));
    lemma_pow2_pos(down);
    let (pu, pd) = (pow2(up), pow2(down));
    assert(b == pd && t == mp * pu);
    assert(top == mp * (pe * pb)) by (nonlinear_arith)
        requires
            top == u * pb,
            u == mp * pe,
    ;
    let pt = pe * pb;
    assert(pt * pd == pu * bottom);
    assert(top * b == t * bottom) by (nonlinear_arith)
        requires
            top == mp * pt,
            b == pd,
            t == mp * pu,
            pt * pd == pu * bottom,
    ;
    let whole = number::half_up((mp, ep));
    lemma_floor(t as int, b as int, top as int, bottom as int, whole as int);
    (top as int, bottom as int)
}

proof fn lemma_unit(n: nat)
    ensures
        n * pow2(0) == n,
{
    lemma2_to64();
    let one = pow2(0);
    assert(n * one == n) by (nonlinear_arith)
        requires
            one == 1,
    ;
}

/// How far two roundings lead away from the exact share.
proof fn lemma_off(
    side: nat,
    longest: nat,
    edge: nat,
    sm: nat,
    lm: nat,
    dm: nat,
    mq: nat,
    u: nat,
    mp: nat,
    pa: nat,
    pb: nat,
    pc: nat,
    pz: nat,
    pe: nat,
    bottom: nat,
)
    requires
        sm == side * pa,
        lm == longest * pb,
        dm == edge * pc,
        bottom == (pa * pc) * pz,
        u == mp * pe,
        mq >= 0x10_0000_0000_0000,
        mp >= 0x10_0000_0000_0000,
        number::within_half((mq * lm) as int, (dm * pz) as int, lm as int),
        number::within_half(u as int, (sm * mq) as int, pe as int),
    ensures
        ({
            let top = u * pb;
            let off = 0x4_0000_0000_0000 * (top * longest - (side * edge) * bottom);
            -(longest * top) <= off <= longest * top
        }),
{
    let top = (u * pb) as int;
    let a = u - sm * mq;
    let b = mq * lm - dm * pz;
    let exact = ((side * edge) * bottom) as int;
    assert(top * longest == u * lm) by (nonlinear_arith)
        requires
            top == u * pb,
            lm == longest * pb,
    ;
    assert(sm * (dm * pz) == exact) by (nonlinear_arith)
        requires
            sm == side * pa,
            dm == edge * pc,
            bottom == (pa * pc) * pz,
            exact == (side * edge) * bottom,
    ;
    assert(u * lm - sm * (dm * pz) == a * lm + sm * b) by (nonlinear_arith)
        requires
            a == u - sm * mq,
            b == mq * lm - dm * pz,
    ;
    let wide = (lm * (pe + sm)) as int;
    assert(-wide <= 2 * (a * lm + sm * b) <= wide) by (nonlinear_arith)
        requires
            wide == lm * (pe + sm),
            -pe <= 2 * a <= pe,
            -lm <= 2 * b <= lm,
            lm >= 0,
            sm >= 0,
    {
        assert(-(pe * lm) <= 2 * a * lm <= pe * lm);
        assert(-(sm * lm) <= 2 * b * sm <= sm * lm);
    }
    let small = 0x4_0000_0000_0000int;
    assert(small * pe + small * sm <= 2 * u) by {
        assert(4 * (small * pe) <= u) by (nonlinear_arith)
            requires
                u == mp * pe,
                mp >= 4 * small,
                small == 0x4_0000_0000_0000,
        ;
        assert(4 * (small * sm) <= sm * mq) by (nonlinear_arith)
            requires
                mq >= 4 * small,
                small == 0x4_0000_0000_0000,
        ;
        assert(pe <= small * pe);
    }
    assert(small * wide <= 2 * (longest * top)) by (nonlinear_arith)
        requires
            wide == lm * (pe + sm),
            lm == longest * pb,
            top == u * pb,
            small * pe + small * sm <= 2 * u,
    {
        assert(small * wide == lm * (small * pe + small * sm));
        assert(lm * (small * pe + small * sm) <= lm * (2 * u));
        assert(lm * (2 * u) == 2 * (longest * (u * pb)));
    }
    let apart = top * longest - exact;
    assert(small * (2 * apart) <= small * wide && -(small * wide) <= small * (2 * apart)) by (
        nonlinear_arith)
        requires
            -wide <= 2 * apart <= wide,
            small > 0,
    ;
}

/// The nearest whole number to a ratio, whichever way the ratio is written.
proof fn lemma_floor(t: int, b: int, top: int, bottom: int, whole: int)
    requires
        t >= 0,
        b > 0,
        bottom > 0,
        top * b == t * bottom,
        whole == (2 * t + b) / (2 * b),
    ensures
        2 * (bottom * whole) <= 2 * top + bottom < 2 * (bottom * whole) + 2 * bottom,
{
    let s = 2 * t + b;
    vstd::arithmetic::div_mod::lemma_fundamental_div_mod(s, 2 * b);
    let rest = s % (2 * b);
    assert(s == (2 * b) * whole + rest && 0 <= rest < 2 * b);
    let (left, middle) = (2 * (bottom * whole), 2 * top + bottom);
    assert(left * b + rest * bottom == middle * b) by (nonlinear_arith)
        requires
            s == (2 * b) * whole + rest,
            s == 2 * t + b,
            top * b == t * bottom,
            left == 2 * (bottom * whole),
            middle == 2 * top + bottom,
    ;
    assert(left <= middle) by (nonlinear_arith)
        requires
            left * b + rest * bottom == middle * b,
            rest >= 0,
            bottom > 0,
            b > 0,
    ;
    assert(middle < left + 2 * bottom) by (nonlinear_arith)
        requires
            left * b + rest * bottom == middle * b,
            rest < 2 * b,
            bottom > 0,
            b > 0,
    ;
}

/// What is hardly more than `most` is no more than that as a whole number.
proof fn lemma_no_more(top: int, bottom: int, whole: int, longest: int, exact: int, most: int)
    requires
        longest > 0,
        bottom > 0,
        0 < most <= 0xffff_ffff,
        0x4_0000_0000_0000 * (top * longest - exact) <= longest * top,
        exact <= longest * (most * bottom),
        2 * (bottom * whole) <= 2 * top + bottom,
    ensures
        whole <= most,
{
    let small = 0x4_0000_0000_0000int;
    let all = most * bottom;
    assert(top * (small - 1) <= small * all) by {
        assert(longest * (top * (small - 1)) <= longest * (small * all)) by (nonlinear_arith)
            requires
                small * (top * longest - exact) <= longest * top,
                exact <= longest * all,
                small > 0,
        ;
        lemma_mul_inequality_converse(top * (small - 1), small * all, longest);
    }
    if whole >= most + 1 {
        assert(bottom * whole >= all + bottom) by (nonlinear_arith)
            requires
                whole >= most + 1,
                bottom > 0,
                all == most * bottom,
        ;
        assert(2 * (top * (small - 1)) >= (2 * all + bottom) * (small - 1)) by (nonlinear_arith)
            requires
                2 * top >= 2 * all + bottom,
                small > 1,
        ;
        assert((2 * all + bottom) * (small - 1) == 2 * (small * all) - 2 * all + bottom * (small
            - 1)) by (nonlinear_arith);
        assert(bottom * (small - 1) > 2 * all) by (nonlinear_arith)
            requires
                all == most * bottom,
                bottom > 0,
                small - 1 > 2 * most,
        ;
    }
}

/// The longest side becomes just the edge. No other side becomes longer than that, and
/// none longer than it was where the edge is no longer than the longest. Where the product
/// of side and edge is below two to the forty-eighth, the two roundings in double precision
/// add nothing, and a side is within half a pixel of its share.
pub proof fn lemma_fitted(side: nat, longest: nat, edge: nat)
    requires
        0 < side <= longest <= 0xffff_ffff,
        0 < edge <= 0xffff_ffff,
    ensures
        side == longest ==> fitted(side, longest, edge) == edge,
        1 <= fitted(side, longest, edge) <= edge,
        edge <= longest ==> fitted(side, longest, edge) <= side,
        fitted(side, longest, edge) > 1 && side * edge < 0x1_0000_0000_0000
            ==> number::within_half(
            (fitted(side, longest, edge) * longest) as int,
            (side * edge) as int,
            longest as int,
        ),
{
    let (w, m) = lemma_share(side, longest, edge);
    let h = number::half_up(
        number::product(
            number::nearest(side, 1, Precision::Double),
            scan::ratio(edge, longest, Precision::Double),
            Precision::Double,
        ),
    ) as int;
    let small = 0x4_0000_0000_0000int;
    let (s, l, d) = (side as int, longest as int, edge as int);
    let exact = (s * d) * m;
    assert(-(l * w) <= small * (w * l - exact) <= l * w);
    assert(exact <= l * (d * m)) by (nonlinear_arith)
        requires
            exact == (s * d) * m,
            0 < s <= l,
            d > 0,
            m > 0,
    ;
    lemma_no_more(w, m, h, l, exact, d);
    if d <= l {
        assert(exact <= l * (s * m)) by (nonlinear_arith)
            requires
                exact == (s * d) * m,
                0 < d <= l,
                s > 0,
                m > 0,
        ;
        lemma_no_more(w, m, h, l, exact, s);
    }
    if s == l {
        assert(exact == l * (d * m)) by (nonlinear_arith)
            requires
                exact == (s * d) * m,
                s == l,
        ;
        let dm = d * m;
        assert(small * dm <= w * (small + 1)) by {
            assert(l * (small * dm) <= l * (w * (small + 1))) by (nonlinear_arith)
                requires
                    -(l * w) <= small * (w * l - exact),
                    exact == l * dm,
            ;
            lemma_mul_inequality_converse(small * dm, w * (small + 1), l);
        }
        if h < d {
            assert(m * h <= dm - m) by (nonlinear_arith)
                requires
                    h <= d - 1,
                    m > 0,
                    dm == d * m,
            ;
            assert(2 * w < 2 * dm - m);
            assert(2 * (w * (small + 1)) <= (2 * dm - m) * (small + 1)) by (nonlinear_arith)
                requires
                    2 * w < 2 * dm - m,
                    small > 0,
            ;
            assert((2 * dm - m) * (small + 1) == 2 * (small * dm) + 2 * dm - m * (small + 1))
                by (nonlinear_arith);
            assert(m * (small + 1) > 2 * dm) by (nonlinear_arith)
                requires
                    dm == d * m,
                    m > 0,
                    small + 1 > 2 * d,
            ;
        }
    }
    if h > 1 && s * d < 0x1_0000_0000_0000 {
        // Four times the share bounds what the roundings add.
        assert(l * w <= 2 * exact) by {
            assert(l * w == w * l) by (nonlinear_arith);
            assert(exact >= 0) by (nonlinear_arith)
                requires
                    exact == (s * d) * m,
                    s > 0,
                    d > 0,
                    m > 0,
            ;
        }
        let gap = 2 * (h * l - s * d);
        let (hm, wl) = ((h * l) * m, w * l);
        assert(l * w == wl) by (nonlinear_arith)
            requires
                wl == w * l,
        ;
        assert(-(l * m) <= 2 * (hm - wl) <= l * m) by (nonlinear_arith)
            requires
                hm == (h * l) * m,
                wl == w * l,
                2 * (m * h) <= 2 * w + m < 2 * (m * h) + 2 * m,
                l > 0,
        ;
        assert(gap * m == 2 * (hm - exact)) by (nonlinear_arith)
            requires
                gap == 2 * (h * l - s * d),
                hm == (h * l) * m,
                exact == (s * d) * m,
        ;
        assert(4 * exact < small * m) by (nonlinear_arith)
            requires
                exact == (s * d) * m,
                s * d < 0x1_0000_0000_0000,
                small == 0x4_0000_0000_0000,
                m > 0,
        ;
        let apart = wl - exact;
        assert(-(2 * exact) <= small * apart <= 2 * exact);
        assert(-m < 2 * apart < m) by (nonlinear_arith)
            requires
                -(2 * exact) <= small * apart <= 2 * exact,
                4 * exact < small * m,
                small > 0,
        ;
        assert(gap * m < (l + 1) * m) by (nonlinear_arith)
            requires
                gap * m == 2 * (hm - exact),
                2 * (hm - wl) <= l * m,
                apart == wl - exact,
                2 * apart < m,
        ;
        assert(-((l + 1) * m) < gap * m) by (nonlinear_arith)
            requires
                gap * m == 2 * (hm - exact),
                -(l * m) <= 2 * (hm - wl),
                apart == wl - exact,
                -m < 2 * apart,
        ;
        assert(-l <= gap <= l) by (nonlinear_arith)
            requires
                -((l + 1) * m) < gap * m,
                gap * m < (l + 1) * m,
                m > 0,
        ;
    }
}

/// The longer side of a picture.
pub open spec fn longest(width: u32, height: u32) -> nat {
    if width >= height {
        width as nat
    } else {
        height as nat
    }
}

/// A box without an edge leaves one pixel.
pub proof fn lemma_fitted_to_nothing(side: nat, longest: nat)
    ensures
        fitted(side, longest, 0) == 1,
        number::product(
            number::nearest(side, 1, Precision::Double),
            scan::ratio(0, longest, Precision::Double),
            Precision::Double,
        ) == (0nat, 0int),
        number::half_up((0nat, 0int)) == 0,
{
    lemma_unit(0);
    lemma_unit(1);
    lemma2_to64();
    let m = number::nearest(side, 1, Precision::Double).0;
    assert(m * 0 == 0) by (nonlinear_arith);
    let (t, b) = (number::top(0, 0), number::bottom(1, 0));
    assert(t == 0 && b == 1);
    assert(number::half_up((0nat, 0int)) == (2 * t + b) / (2 * b));
}

/// How long a side becomes when the longest side is scaled to `edge`.
pub(crate) fn fit(side: u32, longest: u32, edge: u32) -> (out: u32)
    requires
        0 < side <= longest,
    ensures
        out == fitted(side as nat, longest as nat, edge as nat),
{
    let top = number::whole(edge as u64, Precision::Double);
    let bottom = number::whole(longest as u64, Precision::Double);
    let ratio = number::divide(top, bottom, Precision::Double);
    let scaled = number::multiply(
        number::whole(side as u64, Precision::Double),
        ratio,
        Precision::Double,
    );
    let whole: u64 = number::nearest_whole(scaled, Precision::Double);
    proof {
        if edge > 0 {
            lemma_fitted(side as nat, longest as nat, edge as nat);
        } else {
            lemma_fitted_to_nothing(side as nat, longest as nat);
        }
    }
    if whole < 1 {
        1
    } else {
        whole as u32
    }
}

/// No block of a thumbnail is longer than this along a side of so many pixels that
/// becomes `shorter`: an even share, and what single precision adds to it.
pub open spec fn block(side: u32, shorter: nat) -> nat {
    let share = side as nat / shorter + side as nat / 0x40_0000 + 3;
    if share < side {
        share
    } else {
        side as nat
    }
}

/// How many samples of this layout can be added up in thirty-two bits, with room for
/// half as many more.
pub open spec fn countable(layout: Layout) -> nat {
    if is_bytes(layout) {
        0x100_0000
    } else if is_words(layout) {
        0x1_0000
    } else {
        0xffff_ffff
    }
}

/// A thumbnail of a picture of this size and layout can be made: no block of it is more
/// than can be added up, and its samples can be addressed.
pub open spec fn has_thumbnail(width: u32, height: u32, layout: Layout, edge: u32) -> bool {
    let most = longest(width, height);
    let (w, h) = (fitted(width as nat, most, edge as nat), fitted(height as nat, most, edge as nat));
    &&& width > 0
    &&& height > 0
    &&& block(width, w) * block(height, h) <= countable(layout)
    &&& 16 * (w * h) <= isize::MAX
}

/// Whether a thumbnail of a picture of this size and layout can be made.
pub(crate) fn thumbnailable(width: u32, height: u32, layout: Layout, edge: u32) -> (out: bool)
    ensures
        out == has_thumbnail(width, height, layout, edge),
{
    if width == 0 || height == 0 {
        return false;
    }
    let most: u32 = if width >= height {
        width
    } else {
        height
    };
    let (w, h): (u32, u32) = (fit(width, most, edge), fit(height, most, edge));
    let limit: u64 = match layout {
        Layout::Luma8 | Layout::LumaA8 | Layout::Rgb8 | Layout::Rgba8 => 0x100_0000,
        Layout::Luma16 | Layout::LumaA16 | Layout::Rgb16 | Layout::Rgba16 => 0x1_0000,
        Layout::Rgb32F | Layout::Rgba32F => 0xffff_ffff,
    };
    let (across, down): (u64, u64) = (block_of(width, w), block_of(height, h));
    let (x, y): (u128, u128) = (w as u128, h as u128);
    assert(across * down <= 0xffff_ffff * 0xffff_ffff && x * y <= 0xffff_ffff * 0xffff_ffff)
        by (nonlinear_arith)
        requires
            across <= 0xffff_ffff,
            down <= 0xffff_ffff,
            x <= 0xffff_ffff,
            y <= 0xffff_ffff,
    ;
    across * down <= limit && 16 * (x * y) <= isize::MAX as u128
}

fn block_of(side: u32, shorter: u32) -> (out: u64)
    requires
        shorter > 0,
    ensures
        out == block(side, shorter as nat),
{
    let (all, share): (u64, u64) = (side as u64, (side / shorter) as u64);
    let part: u64 = all / 0x40_0000;
    proof {
        vstd::arithmetic::div_mod::lemma_div_is_ordered_by_denominator(
            side as int,
            1,
            shorter as int,
        );
    }
    if share + part + 3 < all {
        share + part + 3
    } else {
        all
    }
}

/// A picture of this size can be brought down to this edge: the middle of each pixel can
/// be told in single precision, and what stands between the two passes, full rows of four
/// floating-point samples a pixel, can be addressed.
pub open spec fn has_resize(width: u32, height: u32, edge: u32) -> bool {
    let most = longest(width, height);
    &&& edge < most
    &&& width <= 0x40_0000
    &&& height <= 0x40_0000
    &&& width > 0 && height > 0 ==> 16 * (width * fitted(height as nat, most, edge as nat))
        <= isize::MAX
}

/// Whether a picture of this size can be brought down to this edge.
pub(crate) fn resizable(width: u32, height: u32, edge: u32) -> (out: bool)
    ensures
        out == has_resize(width, height, edge),
{
    let most: u32 = if width >= height {
        width
    } else {
        height
    };
    if edge >= most || width > 0x40_0000 || height > 0x40_0000 {
        return false;
    }
    if width == 0 || height == 0 {
        return true;
    }
    let (across, down): (u128, u128) = (width as u128, fit(height, most, edge) as u128);
    assert(across * down <= 0xffff_ffff * 0xffff_ffff) by (nonlinear_arith)
        requires
            across <= 0xffff_ffff,
            down <= 0xffff_ffff,
    ;
    16 * (across * down) <= isize::MAX as u128
}

/// What `DynamicImage::resize` with the Lanczos3 filter can give for a picture with
/// these contents and a box of this edge.
pub uninterp spec fn resized(
    width: u32,
    height: u32,
    layout: Layout,
    samples: Seq<u32>,
    edge: u32,
) -> Set<Seq<u32>>;

/// `DynamicImage::resize` scales a picture to fit a box, here one of equal sides, with
/// the Lanczos3 filter. It keeps the layout and the aspect ratio, a side without pixels
/// becomes one pixel, and the result of a picture that holds just the samples its pixels
/// take does so too. The samples come from floating-point filtering and can differ between
/// machines. Pixels are told apart by their middles in single precision, which past the
/// twenty-second power of two run together and leave a pixel without weight, so `requires`
/// keeps to shorter sides.
#[verifier::external_body]
pub(crate) fn resize(picture: &DynamicImage, edge: u32) -> (out: DynamicImage)
    requires
        has_resize(picture_width(*picture), picture_height(*picture), edge),
    ensures
        picture_width(out) == fitted(
            picture_width(*picture) as nat,
            longest(picture_width(*picture), picture_height(*picture)),
            edge as nat,
        ),
        picture_height(out) == fitted(
            picture_height(*picture) as nat,
            longest(picture_width(*picture), picture_height(*picture)),
            edge as nat,
        ),
        picture_layout(out) == picture_layout(*picture),
        is_exact(*picture) ==> is_exact(out),
        resized(
            picture_width(*picture),
            picture_height(*picture),
            picture_layout(*picture),
            picture_samples(*picture),
            edge,
        ).contains(picture_samples(out)),
{
    picture.resize(edge, edge, image::imageops::FilterType::Lanczos3)
}

/// What `DynamicImage::to_rgba8` can give for a picture with these contents.
pub uninterp spec fn as_rgba(width: u32, height: u32, layout: Layout, samples: Seq<u32>) -> Set<
    Seq<u8>,
>;

/// `DynamicImage::to_rgba8` copies a picture as one-byte red, green, blue and alpha
/// samples, four for each pixel; a picture laid out so already is copied as it is.
#[verifier::external_body]
pub(crate) fn rgba_samples(picture: &DynamicImage) -> (out: Vec<u8>)
    requires
        is_exact(*picture),
    ensures
        out@.len() == 4 * (picture_width(*picture) * picture_height(*picture)),
        picture_layout(*picture) is Rgba8 ==> forall|i: int|
            0 <= i < out@.len() ==> picture_samples(*picture)[i] == #[trigger] out@[i],
        as_rgba(
            picture_width(*picture),
            picture_height(*picture),
            picture_layout(*picture),
            picture_samples(*picture),
        ).contains(out@),
{
    picture.to_rgba8().into_raw()
}

/// What `DynamicImage::thumbnail` can give for a picture with these contents and a box
/// of this edge.
pub uninterp spec fn shrunk(
    width: u32,
    height: u32,
    layout: Layout,
    samples: Seq<u32>,
    edge: u32,
) -> Set<Seq<u32>>;

/// `DynamicImage::thumbnail` scales a picture to fit a box, here one of equal sides,
/// with a fast filter. It keeps the layout and the aspect ratio. A block of pixels is
/// added up for each pixel that is left, whole-number samples in thirty-two bits without a
/// test, so `requires` keeps to blocks whose sum fits.
#[verifier::external_body]
pub(crate) fn thumbnail(picture: &DynamicImage, edge: u32) -> (out: DynamicImage)
    requires
        has_thumbnail(
            picture_width(*picture),
            picture_height(*picture),
            picture_layout(*picture),
            edge,
        ),
    ensures
        picture_width(out) == fitted(
            picture_width(*picture) as nat,
            longest(picture_width(*picture), picture_height(*picture)),
            edge as nat,
        ),
        picture_height(out) == fitted(
            picture_height(*picture) as nat,
            longest(picture_width(*picture), picture_height(*picture)),
            edge as nat,
        ),
        picture_layout(out) == picture_layout(*picture),
        is_exact(out),
        shrunk(
            picture_width(*picture),
            picture_height(*picture),
            picture_layout(*picture),
            picture_samples(*picture),
            edge,
        ).contains(picture_samples(out)),
{
    picture.thumbnail(edge, edge)
}

/// What `image::ImageReader` can read out of a file at this path with these bytes: the
/// size, the layout and the samples, or nothing.
pub uninterp spec fn opened(path: Seq<char>, bytes: Seq<u8>) -> Set<
    Option<(u32, u32, Layout, Seq<u32>)>,
>;

/// `image::ImageReader` decodes the contents of a file. `with_guessed_format` takes the
/// format from the content, and where that says nothing leaves the one that
/// `ImageFormat::from_path` reads off the extension. A decoded picture holds just the
/// samples its pixels take. A panic inside a codec is not excluded.
#[verifier::external_body]
pub(crate) fn open(path: &str, bytes: &Vec<u8>) -> (out: Option<DynamicImage>)
    ensures
        match out {
            Some(picture) => is_exact(picture) && opened(path@, bytes@).contains(
                Some(contents(picture)),
            ),
            None => opened(path@, bytes@).contains(None),
        },
{
    let mut reader = ImageReader::new(Cursor::new(bytes));
    if let Ok(known) = ImageFormat::from_path(path) {
        reader.set_format(known);
    }
    reader.with_guessed_format().ok()?.decode().ok()
}

/// What `image::load_from_memory` can read out of a file with these bytes: the size,
/// the layout and the samples, or nothing.
pub uninterp spec fn decoded(bytes: Seq<u8>) -> Set<Option<(u32, u32, Layout, Seq<u32>)>>;

/// `image::load_from_memory` guesses the format from the content and decodes it. A
/// decoded picture holds just the samples its pixels take. A panic inside a codec is not
/// excluded.
#[verifier::external_body]
pub(crate) fn load(bytes: &Vec<u8>) -> (out: Option<DynamicImage>)
    ensures
        match out {
            Some(picture) => is_exact(picture) && decoded(bytes@).contains(Some(contents(picture))),
            None => decoded(bytes@).contains(None),
        },
{
    image::load_from_memory(bytes).ok()
}

/// A side libwebp can write.
pub open spec fn is_webp_side(side: u32) -> bool {
    1 <= side <= 16383
}

/// What libwebp's lossless mode can write for samples in this layout.
pub uninterp spec fn webp_lossless(width: u32, height: u32, layout: Layout, samples: Seq<u32>) -> Set<
    Seq<u8>,
>;

/// Whatever a file with these bytes decodes to, it has this size.
pub open spec fn keeps_size(width: u32, height: u32, file: Seq<u8>) -> bool {
    forall|back: (u32, u32, Layout, Seq<u32>)| #[trigger]
        decoded(file).contains(Some(back)) ==> back.0 == width && back.1 == height
}

/// Whatever a file with these bytes decodes to, it has the alpha of a picture with these
/// contents: of one with a transparent pixel in one-byte red, green, blue and alpha, the
/// size, the layout and each alpha sample.
pub open spec fn keeps_alpha(picture: (u32, u32, Layout, Seq<u32>), file: Seq<u8>) -> bool {
    let (width, height, layout, samples) = picture;
    layout is Rgba8 && convert::is_transparent(width, height, layout, samples) ==> forall|
        back: (u32, u32, Layout, Seq<u32>),
    | #[trigger]
        decoded(file).contains(Some(back)) ==> {
            &&& back.0 == width
            &&& back.1 == height
            &&& back.2 is Rgba8
            &&& forall|pixel: int|
                0 <= pixel < width * height ==> convert::sample_at(back.3, pixel, 4, 3)
                    == #[trigger] convert::sample_at(samples, pixel, 4, 3)
        }
}

/// `webp::Encoder::from_image` takes a picture in one-byte red, green, blue, with or
/// without alpha, and refuses every other layout; `encode_lossless` then writes it, so
/// that `image::load_from_memory` gives the size and the alpha back. Colours under full
/// transparency are not kept. libwebp's entropy search is in floating point and can differ
/// between machines.
#[verifier::external_body]
pub(crate) fn write_webp_lossless(picture: &DynamicImage) -> (out: Option<Vec<u8>>)
    requires
        picture_layout(*picture) is Rgb8 || picture_layout(*picture) is Rgba8 ==> is_webp_side(
            picture_width(*picture),
        ) && is_webp_side(picture_height(*picture)),
    ensures
        out is Some == (picture_layout(*picture) is Rgb8 || picture_layout(*picture) is Rgba8),
        out matches Some(file) ==> webp_lossless(
            picture_width(*picture),
            picture_height(*picture),
            picture_layout(*picture),
            picture_samples(*picture),
        ).contains(file@),
        out matches Some(file) ==> keeps_size(
            picture_width(*picture),
            picture_height(*picture),
            file@,
        ),
        out matches Some(file) ==> keeps_alpha(contents(*picture), file@),
{
    Some(webp::Encoder::from_image(picture).ok()?.encode_lossless().to_vec())
}

/// What libwebp's lossy mode can write for samples in this layout, at a quality given
/// in decimal: a file, or nothing.
pub uninterp spec fn webp_lossy(
    width: u32,
    height: u32,
    layout: Layout,
    samples: Seq<u32>,
    quality: Seq<char>,
) -> Set<Option<Seq<u8>>>;

/// `webp::Encoder::from_image` as above; `encode_simple` then writes the picture, here
/// lossy, at a quality from 0 to 100 read from its decimal text, so that
/// `image::load_from_memory` gives the size back. It fails where the picture holds more
/// than a lossy file has room for.
#[verifier::external_body]
pub(crate) fn write_webp_lossy(picture: &DynamicImage, quality: &str) -> (out: Option<Vec<u8>>)
    requires
        picture_layout(*picture) is Rgb8 || picture_layout(*picture) is Rgba8 ==> is_webp_side(
            picture_width(*picture),
        ) && is_webp_side(picture_height(*picture)),
        is_quality_text(quality@),
    ensures
        if picture_layout(*picture) is Rgb8 || picture_layout(*picture) is Rgba8 {
            webp_lossy(
                picture_width(*picture),
                picture_height(*picture),
                picture_layout(*picture),
                picture_samples(*picture),
                quality@,
            ).contains(
                match out {
                    Some(file) => Some(file@),
                    None => None,
                },
            )
        } else {
            out is None
        },
        out matches Some(file) ==> keeps_size(
            picture_width(*picture),
            picture_height(*picture),
            file@,
        ),
{
    let encoder = webp::Encoder::from_image(picture).ok()?;
    Some(encoder.encode_simple(false, quality.parse().ok()?).ok()?.to_vec())
}

/// What ravif can make of red, green, blue and alpha samples at a quality given in
/// decimal: a file, or nothing.
pub uninterp spec fn avif(
    samples: Seq<u8>,
    width: u32,
    height: u32,
    quality: Seq<char>,
    speed: u8,
) -> Set<Option<Seq<u8>>>;

/// `ravif::Encoder::encode_rgba` writes one-byte red, green, blue and alpha samples as
/// an AVIF file, or fails. `with_quality` takes 1 to 100, here read from its decimal
/// text, and `with_speed` 1 to 10. The encoder splits its work by the threads of the
/// machine, and its result can differ with them. A panic inside it is not excluded.
#[verifier::external_body]
pub(crate) fn write_avif(
    samples: &Vec<u8>,
    width: u32,
    height: u32,
    quality: &str,
    speed: u8,
) -> (out: Option<Vec<u8>>)
    requires
        samples@.len() == 4 * (width * height),
        width > 0,
        height > 0,
        is_quality_text(quality@),
        1 <= speed <= 10,
    ensures
        avif(samples@, width, height, quality@, speed).contains(
            match out {
                Some(file) => Some(file@),
                None => None,
            },
        ),
{
    let pixels = ravif::Img::new(samples.as_rgba(), width as usize, height as usize);
    let encoder = ravif::Encoder::new().with_quality(quality.parse().ok()?).with_speed(speed);
    Some(encoder.encode_rgba(pixels).ok()?.avif_file)
}

/// The spacing of single-precision numbers just above one, as a fraction of one: the
/// unit that qualities are counted in, so that each single-precision quality from 1
/// to 100 is a whole count of them.
pub const QUALITY_ONE: u32 = 8_388_608;

/// `value` in decimal, with leading zeros up to `places` digits.
pub open spec fn padded(value: nat, places: nat) -> Seq<char>
    decreases places,
{
    if places == 0 {
        seq![]
    } else {
        padded(value / 10, (places - 1) as nat).push(text::digit(value % 10))
    }
}

/// A quality in decimal, written out in full.
pub open spec fn quality_text(units: nat) -> Seq<char> {
    text::decimal(units / 8_388_608) + seq!['.'] + padded(
        (units % 8_388_608) * 11_920_928_955_078_125,
        23,
    )
}

/// The text is that of a quality from 1 to 100.
pub open spec fn is_quality_text(quality: Seq<char>) -> bool {
    exists|units: nat|
        QUALITY_ONE <= units <= 100 * QUALITY_ONE && quality == #[trigger] quality_text(units)
}

/// `value` in decimal, with leading zeros up to `places` digits.
fn padded_of(value: u128, places: usize) -> (out: String)
    ensures
        out@ == padded(value as nat, places as nat),
    decreases places,
{
    if places == 0 {
        let out = String::new();
        assert(out@ =~= seq![]);
        out
    } else {
        let mut out = padded_of(value / 10, places - 1);
        out.push(text::digit_of(value % 10));
        out
    }
}

/// A quality in decimal.
pub(crate) fn quality_text_of(units: u32) -> (out: String)
    ensures
        out@ == quality_text(units as nat),
{
    let mut out = text::decimal_of((units / QUALITY_ONE) as u128);
    out.push('.');
    let rest: u128 = (units % QUALITY_ONE) as u128;
    out.append(padded_of(rest * 11_920_928_955_078_125, 23).as_str());
    out
}

/// A side that comes to a few pixels was no longer than twice its share of the longest side
/// for each of them.
proof fn lemma_side_of_fitted(side: nat, longest: nat, edge: nat)
    requires
        0 < side <= longest <= 16_384,
        0 < edge <= 0xffff,
    ensures
        side * edge <= 2 * (fitted(side, longest, edge) * longest),
        fitted(side, longest, edge) >= 1,
{
    let f = fitted(side, longest, edge);
    assert(side * edge < 0x1_0000_0000_0000) by (nonlinear_arith)
        requires
            side <= 16_384,
            edge <= 0xffff,
    ;
    lemma_fitted(side, longest, edge);
    let all = f * longest;
    if f > 1 {
        assert(2 * longest <= all) by (nonlinear_arith)
            requires
                all == f * longest,
                f >= 2,
        ;
    } else {
        let (w, m) = lemma_share(side, longest, edge);
        let h = number::half_up(
            number::product(
                number::nearest(side, 1, Precision::Double),
                scan::ratio(edge, longest, Precision::Double),
                Precision::Double,
            ),
        ) as int;
        let (small, exact) = (0x4_0000_0000_0000int, (side * edge) * m);
        let (l, se) = (longest as int, (side * edge) as int);
        assert(h <= 1);
        assert(2 * w < 3 * m) by (nonlinear_arith)
            requires
                2 * w + m < 2 * (m * h) + 2 * m,
                h <= 1,
                m > 0,
        ;
        // The share is below one and a half, and the exact one hardly more.
        assert(small * exact <= (small + 1) * (w * l)) by (nonlinear_arith)
            requires
                -(l * w) <= small * (w * l - exact),
        ;
        assert(2 * (w * l) <= 3 * (m * l)) by (nonlinear_arith)
            requires
                2 * w < 3 * m,
                l > 0,
        ;
        assert(2 * (small * exact) <= (small + 1) * (3 * (m * l))) by (nonlinear_arith)
            requires
                small * exact <= (small + 1) * (w * l),
                2 * (w * l) <= 3 * (m * l),
                small > 0,
        ;
        assert(2 * small * se <= (small + 1) * (3 * l)) by {
            assert((2 * small * se) * m <= ((small + 1) * (3 * l)) * m) by (nonlinear_arith)
                requires
                    2 * (small * exact) <= (small + 1) * (3 * (m * l)),
                    exact == se * m,
            ;
            lemma_mul_inequality_converse(2 * small * se, (small + 1) * (3 * l), m);
        }
        assert(se <= 2 * l) by (nonlinear_arith)
            requires
                2 * small * se <= (small + 1) * (3 * l),
                small == 0x4_0000_0000_0000,
                l > 0,
        ;
        assert(f * longest == longest) by (nonlinear_arith)
            requires
                f == 1,
        ;
    }
}

proof fn lemma_short_block(side: u32, longest: nat)
    requires
        0 < side <= longest <= 16_384,
    ensures
        block(side, fitted(side as nat, longest, 240)) <= 140,
{
    let f = fitted(side as nat, longest, 240);
    lemma_side_of_fitted(side as nat, longest, 240);
    let s = side as nat;
    assert(s * 240 <= 32_768 * f) by (nonlinear_arith)
        requires
            s * 240 <= 2 * (f * longest),
            longest <= 16_384,
    ;
    assert(s / f < 137) by {
        vstd::arithmetic::div_mod::lemma_fundamental_div_mod(s as int, f as int);
        let q = (s / f) as int;
        assert(q < 137) by (nonlinear_arith)
            requires
                s == f * q + s % f,
                s % f >= 0,
                s < 137 * f,
                f >= 1,
        ;
    }
}

/// Every picture with pixels, of up to 16384 of them along a side and in any layout, wide or
/// tall, has a thumbnail.
pub proof fn law_ordinary_pictures_have_thumbnails(width: u32, height: u32, layout: Layout)
    requires
        0 < width <= 16_384,
        0 < height <= 16_384,
    ensures
        has_thumbnail(width, height, layout, 240),
{
    let most = longest(width, height);
    let (w, h) = (fitted(width as nat, most, 240), fitted(height as nat, most, 240));
    lemma_short_block(width, most);
    lemma_short_block(height, most);
    lemma_fitted(width as nat, most, 240);
    lemma_fitted(height as nat, most, 240);
    let (a, b) = (block(width, w), block(height, h));
    assert(a * b <= 140 * 140) by (nonlinear_arith)
        requires
            a <= 140,
            b <= 140,
    ;
    assert(w * h <= 240 * 240) by (nonlinear_arith)
        requires
            w <= 240,
            h <= 240,
    ;
}

/// Digits with zeros in front read as the number, as far as there is room for it.
proof fn lemma_padded_reads_back(value: nat, places: nat)
    requires
        value < pow(10, places),
    ensures
        text::read_back(padded(value, places)) == value,
        padded(value, places).len() == places,
    decreases places,
{
    reveal(pow);
    if places > 0 {
        let p = pow(10, (places - 1) as nat);
        assert(pow(10, places) == 10 * p);
        assert(value / 10 < p);
        lemma_padded_reads_back(value / 10, (places - 1) as nat);
        let front = padded(value / 10, (places - 1) as nat);
        assert(padded(value, places).drop_last() =~= front);
    } else {
        assert(pow(10, 0) == 1);
    }
}

proof fn lemma_read_on(a: Seq<char>, b: Seq<char>)
    ensures
        text::read_back(a + b) == text::read_back(a) * pow(10, b.len()) + text::read_back(b),
    decreases b.len(),
{
    reveal(pow);
    if b.len() == 0 {
        assert(a + b =~= a);
        assert(pow(10, 0) == 1);
        assert(text::read_back(a) * 1 == text::read_back(a));
    } else {
        let front = b.drop_last();
        lemma_read_on(a, front);
        assert((a + b).drop_last() =~= a + front);
        let (p, x) = (pow(10, front.len()), text::read_back(a));
        assert(pow(10, b.len()) == 10 * p);
        assert(10 * (x * p) == x * (10 * p)) by (nonlinear_arith);
    }
}

/// The text of a quality is the quality in full: its digits, with 23 of them behind the
/// point, read as the quality times ten to the 23rd.
pub proof fn law_qualities_are_written_in_full(units: nat) -> (out: (Seq<char>, Seq<char>))
    ensures
        quality_text(units) == out.0 + seq!['.'] + out.1,
        out.1.len() == 23,
        text::read_back(out.0 + out.1) * 8_388_608 == units * pow(10, 23),
{
    let (whole, rest) = (units / 8_388_608, units % 8_388_608);
    let value = rest * 11_920_928_955_078_125;
    let p = pow(10, 23);
    assert(p == 100_000_000_000_000_000_000_000) by {
        reveal(pow);
        reveal_with_fuel(pow, 24);
    }
    lemma_padded_reads_back(value, 23);
    text::law_decimals_read_back(whole);
    let (front, back) = (text::decimal(whole), padded(value, 23));
    lemma_read_on(front, back);
    assert(whole * p == whole * 100_000_000_000_000_000_000_000 && units * p == units
        * 100_000_000_000_000_000_000_000) by (nonlinear_arith)
        requires
            p == 100_000_000_000_000_000_000_000,
    ;
    assert(8_388_608 * whole + rest == units);
    (front, back)
}

} // verus!
