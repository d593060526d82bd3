//! The comparison's stage: where the two pictures stand, how large they are shown, and
//! where the divider between them is.
//!
//! Positions and lengths are counted in `PIXEL`s to the pixel, shares and scales are
//! ratios of whole numbers, so nothing is lost on the way.

use crate::layout::PIXEL;
use vstd::prelude::*;

verus! {

/// As far from the middle as anything is moved: farther than the longest side of a
/// picture reaches at the largest scale.
pub const FAR: i64 = 0x100_0000_0000_0000;

/// As large as either part of a ratio gets: as long as the longest side of a picture.
pub const LARGE: u64 = 0x1_0000_0000_0000;

/// A place on the stage, or a way across it.
#[derive(Clone, Copy, Debug, PartialEq, Eq, Structural)]
pub struct Point {
    pub x: i64,
    pub y: i64,
}

impl Point {
    /// Within reach of the stage.
    pub open spec fn near(self) -> bool {
        -FAR <= self.x <= FAR && -FAR <= self.y <= FAR
    }
}

/// `over / under`.
#[derive(Clone, Copy, Debug, PartialEq, Eq, Structural)]
pub struct Ratio {
    pub over: u64,
    pub under: u64,
}

impl Ratio {
    /// A positive share.
    pub open spec fn sound(self) -> bool {
        0 < self.over <= LARGE && 0 < self.under <= LARGE
    }

    /// The one is below the other.
    pub open spec fn below(self, other: Ratio) -> bool {
        self.over * other.under < other.over * self.under
    }
}

/// How an open comparison is shown.
#[derive(Clone, Copy, Debug)]
pub struct Stage {
    /// How large the pictures are shown. Nothing fits them to the window.
    pub zoom: Option<Ratio>,
    /// How far the pictures are moved from the middle.
    pub pan: Point,
    /// Where a drag began, and how far the pictures were moved then.
    pub drag: Option<(Point, Point)>,
    /// Where the divider stands, from the left edge to the right.
    pub split: Ratio,
}

/// `x`, but no farther out than `FAR`.
pub open spec fn kept(x: int) -> int {
    if x < -FAR {
        -FAR as int
    } else if x > FAR {
        FAR as int
    } else {
        x
    }
}

fn keep(x: i128) -> (out: i64)
    ensures
        out == kept(x as int),
{
    if x < -(FAR as i128) {
        -FAR
    } else if x > FAR as i128 {
        FAR
    } else {
        x as i64
    }
}

/// `x` stretched by `over / under`, towards zero where that is no whole number.
pub open spec fn stretched(x: int, over: int, under: int) -> int {
    if x < 0 {
        -((-x) * over / under)
    } else {
        x * over / under
    }
}

/// The smallest and the largest scale.
pub open spec fn smallest() -> Ratio {
    Ratio { over: 1, under: 50 }
}

pub open spec fn largest() -> Ratio {
    Ratio { over: 16, under: 1 }
}

/// `zoom`, but between the smallest scale and the largest.
pub open spec fn limited(zoom: Ratio) -> Ratio {
    if zoom.below(smallest()) {
        smallest()
    } else if largest().below(zoom) {
        largest()
    } else {
        zoom
    }
}

/// The scale at which a picture fits the window. It never scales up: a small picture
/// blown across a window is just a blurry small picture.
pub open spec fn fitting(width: u32, height: u32, view_width: i64, view_height: i64) -> Ratio {
    let across = Ratio { over: view_width as u64, under: (width * PIXEL) as u64 };
    let down = Ratio { over: view_height as u64, under: (height * PIXEL) as u64 };
    let tighter = if down.below(across) {
        down
    } else {
        across
    };
    let whole = Ratio { over: 1, under: 1 };
    if whole.below(tighter) {
        whole
    } else {
        tighter
    }
}

/// A window, and a picture that can be shown in it.
pub open spec fn can_fit(width: u32, height: u32, view_width: i64, view_height: i64) -> bool {
    &&& 0 < view_width <= LARGE
    &&& 0 < view_height <= LARGE
    &&& 0 < width
    &&& 0 < height
}

/// Where a picture is drawn.
#[derive(Clone, Copy, Debug, PartialEq, Eq, Structural)]
pub struct Placed {
    pub left: i64,
    pub top: i64,
    pub width: i64,
    pub height: i64,
}

/// How long a side of so many pixels is shown at a scale.
pub open spec fn shown(side: u32, scale: Ratio) -> int {
    side * PIXEL * scale.over / (scale.under as int)
}

/// Half of a length, towards zero.
pub open spec fn half(x: int) -> int {
    if x < 0 {
        -((-x) / 2)
    } else {
        x / 2
    }
}

fn halve(x: i128) -> (out: i128)
    requires
        -0x1000_0000_0000_0000_0000_0000 <= x <= 0x1000_0000_0000_0000_0000_0000,
    ensures
        out == half(x as int),
{
    if x < 0 {
        -((-x) / 2)
    } else {
        x / 2
    }
}

fn is_below(a: Ratio, b: Ratio) -> (out: bool)
    ensures
        out == a.below(b),
{
    let (x, y): (u128, u128) = (a.over as u128, b.under as u128);
    let (z, w): (u128, u128) = (b.over as u128, a.under as u128);
    assert(x * y <= 0xffff_ffff_ffff_ffff * 0xffff_ffff_ffff_ffff && z * w <= 0xffff_ffff_ffff_ffff
        * 0xffff_ffff_ffff_ffff) by (nonlinear_arith)
        requires
            x <= 0xffff_ffff_ffff_ffff,
            y <= 0xffff_ffff_ffff_ffff,
            z <= 0xffff_ffff_ffff_ffff,
            w <= 0xffff_ffff_ffff_ffff,
    ;
    x * y < z * w
}

/// Farther than anything on the stage is from anything else.
const BEYOND: u128 = 0x10_0000_0000_0000_0000_0000_0000;

/// `size` stretched by `over / under`, and what is left over. Nothing where that is
/// beyond the stage.
fn spread(size: u64, over: u128, under: u128) -> (out: Option<(u128, u128)>)
    requires
        0 < over <= 0x1_0000_0000_0000_0000_0000_0000,
        0 < under <= 0x1_0000_0000_0000_0000_0000_0000,
    ensures
        match out {
            Some((whole, rest)) => {
                &&& whole * under + rest == size * over
                &&& rest < under
                &&& whole < BEYOND
            },
            None => size * over >= BEYOND * under,
        },
    decreases size,
{
    if size == 0 {
        assert(0 * under + 0 == size * over) by (nonlinear_arith)
            requires
                size == 0,
        ;
        return Some((0, 0));
    }
    let ghost half = size / 2;
    match spread(size / 2, over, under) {
        None => {
            assert(size * over >= half * over) by (nonlinear_arith)
                requires
                    size >= half,
                    over > 0,
            ;
            None
        },
        Some((whole, rest)) => {
            let ghost (before, left) = (whole as int, rest as int);
            let mut whole: u128 = 2 * whole;
            let mut rest: u128 = 2 * rest;
            if size % 2 == 1 {
                proof {
                    vstd::arithmetic::div_mod::lemma_fundamental_div_mod(over as int, under as int);
                    vstd::arithmetic::div_mod::lemma_div_is_ordered_by_denominator(
                        over as int,
                        1,
                        under as int,
                    );
                }
                whole += over / under;
                rest += over % under;
            }
            let ghost (w, r) = (whole as int, rest as int);
            assert(w * under + r == size * over) by {
                let (u, o, bit) = (under as int, over as int, (size % 2) as int);
                let (q, m) = (o / u, o % u);
                assert(u * q + m == o) by {
                    vstd::arithmetic::div_mod::lemma_fundamental_div_mod(o, u);
                }
                assert(size == 2 * half + bit);
                assert(size * o == 2 * (half * o) + bit * o) by (nonlinear_arith)
                    requires
                        size == 2 * half + bit,
                ;
                assert((2 * before + bit * q) * u + (2 * left + bit * m) == 2 * (before * u + left)
                    + bit * o) by (nonlinear_arith)
                    requires
                        u * q + m == o,
                ;
                assert(bit == 0 || bit == 1);
            }
            while rest >= under
                invariant
                    whole * under + rest == size * over,
                    0 < under <= 0x1_0000_0000_0000_0000_0000_0000,
                    whole + rest / under <= 0x40_0000_0000_0000_0000_0000_0000,
                decreases rest,
            {
                proof {
                    let (a, u) = (whole as int, under as int);
                    assert((a + 1) * u == a * u + u) by (nonlinear_arith);
                    vstd::arithmetic::div_mod::lemma_div_minus_one(rest as int, u);
                    vstd::arithmetic::div_mod::lemma_div_non_zero(rest as int, u);
                }
                whole += 1;
                rest -= under;
            }
            if whole < BEYOND {
                Some((whole, rest))
            } else {
                assert(whole * under >= BEYOND * under) by (nonlinear_arith)
                    requires
                        whole >= BEYOND,
                        under > 0,
                ;
                None
            }
        },
    }
}

/// Where something that is `way` from `from` comes to lie when the way is stretched by
/// `over / under` the other way round.
fn stretched_from(from: i64, way: i128, over: u128, under: u128) -> (out: i64)
    requires
        -FAR <= from <= FAR,
        -2 * FAR <= way <= 2 * FAR,
        0 < over <= 0x1_0000_0000_0000_0000_0000_0000,
        0 < under <= 0x1_0000_0000_0000_0000_0000_0000,
    ensures
        out == kept(from - stretched(way as int, over as int, under as int)),
{
    let size: u64 = if way < 0 {
        (-way) as u64
    } else {
        way as u64
    };
    let ghost all = size * over / (under as int);
    let whole: i128 = match spread(size, over, under) {
        Some((whole, rest)) => {
            proof {
                vstd::arithmetic::div_mod::lemma_fundamental_div_mod_converse(
                    size * over,
                    under as int,
                    whole as int,
                    rest as int,
                );
            }
            whole as i128
        },
        None => {
            proof {
                let (t, u) = (BEYOND as int, under as int);
                vstd::arithmetic::div_mod::lemma_div_is_ordered(t * u, size * over, u);
                vstd::arithmetic::div_mod::lemma_div_multiples_vanish(t, u);
                assert(t * u == u * t) by (nonlinear_arith);
            }
            BEYOND as i128
        },
    };
    if way < 0 {
        keep(from as i128 + whole)
    } else {
        keep(from as i128 - whole)
    }
}

impl Stage {
    /// The pictures are within reach, the scale is one that can be shown, and the divider
    /// is on the stage.
    pub open spec fn sound(self) -> bool {
        &&& self.pan.near()
        &&& self.zoom matches Some(zoom) ==> {
            &&& zoom.sound()
            &&& !zoom.below(smallest())
            &&& !largest().below(zoom)
        }
        &&& self.drag matches Some((from, start)) ==> from.near() && start.near()
        &&& self.split.over <= self.split.under
        &&& 0 < self.split.under
    }

    /// A comparison opens fitted, because you cannot judge a crop of an image you have
    /// not seen yet, with the divider in the middle.
    pub fn new() -> (out: Self)
        ensures
            out.sound(),
            out.zoom is None,
            out.pan == (Point { x: 0, y: 0 }),
            out.drag is None,
            out.split == (Ratio { over: 1, under: 2 }),
    {
        Stage {
            zoom: None,
            pan: Point { x: 0, y: 0 },
            drag: None,
            split: Ratio { over: 1, under: 2 },
        }
    }

    /// Show the whole picture.
    pub fn fit(&mut self)
        requires
            old(self).sound(),
        ensures
            final(self).sound(),
            *final(self) == (Stage { zoom: None, pan: Point { x: 0, y: 0 }, ..*old(self) }),
    {
        self.zoom = None;
        self.pan = Point { x: 0, y: 0 };
    }

    /// Show one pixel of the picture per pixel of the screen.
    pub fn actual(&mut self)
        requires
            old(self).sound(),
        ensures
            final(self).sound(),
            *final(self) == (Stage {
                zoom: Some(Ratio { over: 1, under: 1 }),
                pan: Point { x: 0, y: 0 },
                ..*old(self)
            }),
    {
        self.zoom = Some(Ratio { over: 1, under: 1 });
        self.pan = Point { x: 0, y: 0 };
    }

    /// The pointer is pressed at `at`: from here on it drags.
    pub fn grab(&mut self, at: Point)
        requires
            old(self).sound(),
            at.near(),
        ensures
            final(self).sound(),
            *final(self) == (Stage { drag: Some((at, old(self).pan)), ..*old(self) }),
    {
        self.drag = Some((at, self.pan));
    }

    /// The pointer is let go.
    pub fn release(&mut self)
        requires
            old(self).sound(),
        ensures
            final(self).sound(),
            *final(self) == (Stage { drag: None, ..*old(self) }),
    {
        self.drag = None;
    }

    /// The pointer is at `at`. Held, it pans both sides together, so they stay in
    /// register; free, the divider follows it.
    pub fn follow(&mut self, at: Point, view_width: i64)
        requires
            old(self).sound(),
            at.near(),
            0 < view_width,
        ensures
            final(self).sound(),
            match old(self).drag {
                Some((from, start)) => *final(self) == (Stage {
                    pan: Point {
                        x: kept(start.x + at.x - from.x) as i64,
                        y: kept(start.y + at.y - from.y) as i64,
                    },
                    ..*old(self)
                }),
                None => *final(self) == (Stage {
                    split: Ratio {
                        over: (if at.x < 0 {
                            0
                        } else if at.x > view_width {
                            view_width as int
                        } else {
                            at.x as int
                        }) as u64,
                        under: view_width as u64,
                    },
                    ..*old(self)
                }),
            },
    {
        match self.drag {
            Some((from, start)) => {
                self.pan = Point {
                    x: keep(start.x as i128 + at.x as i128 - from.x as i128),
                    y: keep(start.y as i128 + at.y as i128 - from.y as i128),
                };
            },
            None => {
                let over: i64 = if at.x < 0 {
                    0
                } else if at.x > view_width {
                    view_width
                } else {
                    at.x
                };
                self.split = Ratio { over: over as u64, under: view_width as u64 };
            },
        }
    }

    /// The scale a picture is shown at.
    pub open spec fn scaled(
        self,
        width: u32,
        height: u32,
        view_width: i64,
        view_height: i64,
    ) -> Ratio {
        match self.zoom {
            Some(zoom) => zoom,
            None => fitting(width, height, view_width, view_height),
        }
    }

    /// The scale a picture is shown at: the one asked for, or the one that fits.
    pub fn scale(&self, width: u32, height: u32, view_width: i64, view_height: i64) -> (out: Ratio)
        requires
            self.sound(),
            can_fit(width, height, view_width, view_height),
        ensures
            out == self.scaled(width, height, view_width, view_height),
            out.sound(),
            !largest().below(out),
    {
        match self.zoom {
            Some(zoom) => zoom,
            None => {
                let across = Ratio { over: view_width as u64, under: length(width) };
                let down = Ratio { over: view_height as u64, under: length(height) };
                let tighter = if is_below(down, across) {
                    down
                } else {
                    across
                };
                let whole = Ratio { over: 1, under: 1 };
                if is_below(whole, tighter) {
                    whole
                } else {
                    tighter
                }
            },
        }
    }

    /// Zoom from the scale `before` to `wanted`, as far as scales go, around the pointer,
    /// which is `pointer` from the middle of the window. What is under the pointer stays
    /// under the pointer; without this zooming walks the image off screen.
    pub fn zoom_to(&mut self, wanted: Ratio, before: Ratio, pointer: Point)
        requires
            old(self).sound(),
            wanted.sound(),
            before.sound(),
            pointer.near(),
        ensures
            final(self).sound(),
            ({
                let after = limited(wanted);
                let (over, under) = (after.over * before.under, after.under * before.over);
                *final(self) == (Stage {
                    zoom: Some(after),
                    pan: Point {
                        x: kept(
                            pointer.x - stretched(pointer.x - old(self).pan.x, over, under),
                        ) as i64,
                        y: kept(
                            pointer.y - stretched(pointer.y - old(self).pan.y, over, under),
                        ) as i64,
                    },
                    ..*old(self)
                })
            }),
    {
        let smallest = Ratio { over: 1, under: 50 };
        let largest = Ratio { over: 16, under: 1 };
        let after = if is_below(wanted, smallest) {
            smallest
        } else if is_below(largest, wanted) {
            largest
        } else {
            wanted
        };
        let (a, b): (u128, u128) = (after.over as u128, before.under as u128);
        let (c, d): (u128, u128) = (after.under as u128, before.over as u128);
        assert(0 < a * b <= 0x1_0000_0000_0000 * 0x1_0000_0000_0000 && 0 < c * d
            <= 0x1_0000_0000_0000 * 0x1_0000_0000_0000) by (nonlinear_arith)
            requires
                0 < a <= 0x1_0000_0000_0000,
                0 < b <= 0x1_0000_0000_0000,
                0 < c <= 0x1_0000_0000_0000,
                0 < d <= 0x1_0000_0000_0000,
        ;
        let (over, under): (u128, u128) = (a * b, c * d);
        self.pan = Point {
            x: stretched_from(pointer.x, pointer.x as i128 - self.pan.x as i128, over, under),
            y: stretched_from(pointer.y, pointer.y as i128 - self.pan.y as i128, over, under),
        };
        self.zoom = Some(after);
    }

    /// Where a picture is drawn: in the middle, moved by the pan. A picture larger than
    /// the window begins outside it: that is the crop.
    pub fn place(&self, width: u32, height: u32, view_width: i64, view_height: i64) -> (out: Placed)
        requires
            self.sound(),
            can_fit(width, height, view_width, view_height),
        ensures
            ({
                let scale = self.scaled(width, height, view_width, view_height);
                &&& out.width == shown(width, scale)
                &&& out.height == shown(height, scale)
                &&& out.left == kept(half(view_width - out.width) + self.pan.x)
                &&& out.top == kept(half(view_height - out.height) + self.pan.y)
            }),
    {
        let scale = self.scale(width, height, view_width, view_height);
        let across: i64 = shown_side(width, scale);
        let down: i64 = shown_side(height, scale);
        Placed {
            left: keep(halve(view_width as i128 - across as i128) + self.pan.x as i128),
            top: keep(halve(view_height as i128 - down as i128) + self.pan.y as i128),
            width: across,
            height: down,
        }
    }
}

/// How long a side of so many pixels is.
fn length(side: u32) -> (out: u64)
    ensures
        out == side * PIXEL,
        out == side * 65_536,
{
    assert(side * PIXEL == side * 65_536) by (nonlinear_arith)
        requires
            PIXEL == 65_536,
    ;
    side as u64 * 65_536
}

fn shown_side(side: u32, scale: Ratio) -> (out: i64)
    requires
        scale.sound(),
        !largest().below(scale),
    ensures
        out == shown(side, scale),
        0 <= out <= FAR,
{
    let length: i128 = length(side) as i128;
    let (over, under): (i128, i128) = (scale.over as i128, scale.under as i128);
    assert(0 <= length * over <= 0x1_0000_0000_0000 * 0x1_0000_0000_0000) by (nonlinear_arith)
        requires
            0 <= length <= 0x1_0000_0000_0000,
            0 < over <= 0x1_0000_0000_0000,
    ;
    proof {
        let (l, o, u) = (length as int, over as int, under as int);
        assert(l * o <= (16 * l) * u) by (nonlinear_arith)
            requires
                o <= 16 * u,
                l >= 0,
        ;
        vstd::arithmetic::div_mod::lemma_div_is_ordered(l * o, (16 * l) * u, u);
        vstd::arithmetic::div_mod::lemma_div_by_multiple(16 * l, u);
        vstd::arithmetic::div_mod::lemma_div_pos_is_pos(l * o, u);
    }
    (length * over / under) as i64
}

/// What is under the pointer stays there when the scale changes: the way from the
/// pictures' middle to the pointer grows with the scale, to within one step of a length.
pub proof fn law_zooming_keeps_the_pointer(pointer: int, pan: int, before: Ratio, after: Ratio)
    requires
        before.sound(),
        after.sound(),
    ensures
        ({
            let (over, under) = (after.over * before.under, after.under * before.over);
            let moved = pointer - stretched(pointer - pan, over, under);
            -under < (pointer - moved) * under - (pointer - pan) * over < under
        }),
{
    let (over, under) = (after.over * before.under, after.under * before.over);
    assert(under > 0) by (nonlinear_arith)
        requires
            under == after.under * before.over,
            after.under > 0,
            before.over > 0,
    ;
    let way = pointer - pan;
    let size = if way < 0 {
        -way
    } else {
        way
    };
    let product = size * over;
    let long = product / under;
    assert(long * under <= product < long * under + under) by (nonlinear_arith)
        requires
            long == product / under,
            under > 0,
    ;
    if way < 0 {
        assert((-long) * under == -(long * under)) by (nonlinear_arith);
        assert(way * over == -product) by (nonlinear_arith)
            requires
                product == size * over,
                size == -way,
        ;
    }
}

/// A drag that comes back to where it began leaves the pictures where they were.
pub proof fn law_dragging_back_moves_nothing(start: Point, from: Point)
    requires
        start.near(),
    ensures
        kept(start.x + from.x - from.x) == start.x,
        kept(start.y + from.y - from.y) == start.y,
{
}

/// A fitted picture stands in the window whole, never larger than it is, and touches two
/// edges of the window unless it is shown at its own size.
pub proof fn law_a_fitted_picture_stands_in_the_window(
    width: u32,
    height: u32,
    view_width: i64,
    view_height: i64,
)
    requires
        can_fit(width, height, view_width, view_height),
    ensures
        ({
            let scale = fitting(width, height, view_width, view_height);
            let (across, down) = (shown(width, scale), shown(height, scale));
            &&& 0 <= across <= view_width && 0 <= down <= view_height
            &&& across <= width * PIXEL && down <= height * PIXEL
            &&& {
                ||| across == view_width
                ||| down == view_height
                ||| across == width * PIXEL && down == height * PIXEL
            }
        }),
{
    let scale = fitting(width, height, view_width, view_height);
    let (w, h) = (width * PIXEL, height * PIXEL);
    let (over, under) = (scale.over as int, scale.under as int);
    let (vw, vh) = (view_width as int, view_height as int);
    assert(0 < w <= 0xffff_ffff * 65_536 && 0 < h <= 0xffff_ffff * 65_536) by (nonlinear_arith)
        requires
            w == width * PIXEL,
            h == height * PIXEL,
            0 < width <= 0xffff_ffff,
            0 < height <= 0xffff_ffff,
            PIXEL == 65_536,
    ;
    assert(over <= under && over * w <= vw * under && over * h <= vh * under) by {
        if over == 1 && under == 1 {
            if vh * w < vw * h {
                assert(h < vh);
                assert(w < vw) by (nonlinear_arith)
                    requires
                        vh * w < vw * h,
                        0 < h < vh,
                        0 < w,
                ;
            } else {
                assert(w < vw);
                assert(h < vh) by (nonlinear_arith)
                    requires
                        vh * w >= vw * h,
                        0 < w < vw,
                        0 < h,
                ;
            }
        } else if vh * w < vw * h {
            assert(over == vh && under == h);
        } else {
            assert(over == vw && under == w);
        }
    }
    assert(w * over == over * w && h * over == over * h) by (nonlinear_arith);
    lemma_share_of(w, over, under, vw);
    lemma_share_of(h, over, under, vh);
    lemma_share_of(w, over, under, w);
    lemma_share_of(h, over, under, h);
    if over == 1 && under == 1 {
        lemma_at_one(w);
        lemma_at_one(h);
    } else if over == vw && under == w {
        vstd::arithmetic::div_mod::lemma_div_by_multiple(vw, w);
    }
    if over == vh && under == h {
        vstd::arithmetic::div_mod::lemma_div_by_multiple(vh, h);
    }
}

proof fn lemma_at_one(length: int)
    ensures
        length * 1 / 1 == length,
{
    assert(length * 1 == length);
}

proof fn lemma_share_of(length: int, over: int, under: int, most: int)
    requires
        0 < over,
        0 < under,
        0 < length,
        0 <= most,
        length * over <= most * under || (over <= under && length == most),
    ensures
        0 <= length * over / under <= most,
{
    if over <= under && length == most {
        assert(length * over <= most * under) by (nonlinear_arith)
            requires
                0 < length == most,
                over <= under,
        ;
    }
    assert(0 <= length * over) by (nonlinear_arith)
        requires
            0 < length,
            0 < over,
    ;
    vstd::arithmetic::div_mod::lemma_div_pos_is_pos(length * over, under);
    vstd::arithmetic::div_mod::lemma_div_is_ordered(length * over, most * under, under);
    vstd::arithmetic::div_mod::lemma_div_by_multiple(most, under);
}

/// A picture is never shown smaller than a fiftieth nor larger than sixteen times its size,
/// and at any scale between just as asked for.
pub proof fn law_scales_stay_in_their_limits(zoom: Ratio)
    requires
        zoom.under > 0,
    ensures
        limited(zoom).over * 50 >= limited(zoom).under,
        limited(zoom).over <= 16 * limited(zoom).under,
        zoom.under <= zoom.over * 50 && zoom.over <= 16 * zoom.under ==> limited(zoom) == zoom,
        zoom.over * 50 < zoom.under ==> limited(zoom) == (Ratio { over: 1, under: 50 }),
        zoom.over > 16 * zoom.under ==> limited(zoom) == (Ratio { over: 16, under: 1 }),
{
}

} // verus!
