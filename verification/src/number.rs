//! Binary floating point for sizes and ratios.
//!
//! A `Number` is a whole significand and a power of two, and every operation gives
//! the nearest number its precision can hold, with ties going to the even
//! significand: the arithmetic of IEEE single and double precision on the range that
//! file sizes and their ratios span, where nothing overflows or goes subnormal.

use crate::text;
use crate::text::{decimal_of, digit_of};
use vstd::arithmetic::mul::*;
use vstd::arithmetic::power2::*;
use vstd::prelude::*;

verus! {

/// How many values a significand can take: twenty-four bits, or fifty-three.
#[derive(Clone, Copy, Debug, PartialEq, Eq, Structural)]
pub enum Precision {
    Single,
    Double,
}

/// One past the largest significand.
pub open spec fn limit(precision: Precision) -> nat {
    match precision {
        Precision::Single => 0x100_0000,
        Precision::Double => 0x20_0000_0000_0000,
    }
}

/// `significand * 2^exponent`. Zero has significand and exponent zero.
#[derive(Clone, Copy, Debug, PartialEq, Eq, Structural)]
pub struct Number {
    pub significand: u64,
    pub exponent: i128,
}

impl Number {
    /// The significand fills the precision, or the number is zero.
    pub open spec fn fills(self, precision: Precision) -> bool {
        ||| self.significand == 0 && self.exponent == 0
        ||| limit(precision) <= 2 * self.significand && self.significand < limit(precision)
    }

    /// The significand and the exponent, as whole numbers.
    pub open spec fn parts(self) -> (nat, int) {
        (self.significand as nat, self.exponent as int)
    }
}

/// `e` where it is positive, else zero.
pub open spec fn above(e: int) -> nat {
    if e > 0 {
        e as nat
    } else {
        0
    }
}

/// The numerator of `n / d / 2^e` as a ratio of whole numbers.
pub open spec fn top(n: nat, e: int) -> nat {
    n * pow2(above(-e))
}

/// The denominator of `n / d / 2^e` as a ratio of whole numbers.
pub open spec fn bottom(d: nat, e: int) -> nat {
    d * pow2(above(e))
}

/// `n / d / 2^e` lies from half of `bound` up to before `bound`.
pub open spec fn settles(n: nat, d: nat, bound: nat, e: int) -> bool {
    &&& bound * bottom(d, e) <= 2 * top(n, e)
    &&& top(n, e) < bound * bottom(d, e)
}

/// The exponent at which `n / d` fills a significand below `bound`.
pub open spec fn exponent_of(n: nat, d: nat, bound: nat) -> int {
    choose|e: int| #[trigger] settles(n, d, bound, e)
}

/// `n / d` to the nearest whole number, ties to even.
pub open spec fn even_quotient(n: nat, d: nat) -> nat {
    let quotient = n / d;
    let rest = n % d;
    if 2 * rest < d || (2 * rest == d && quotient % 2 == 0) {
        quotient
    } else {
        quotient + 1
    }
}

/// The number of precision `precision` nearest to `n / d`, ties to the even
/// significand, by its significand and exponent.
pub open spec fn nearest(n: nat, d: nat, precision: Precision) -> (nat, int) {
    if n == 0 {
        (0, 0)
    } else {
        let bound = limit(precision);
        let e = exponent_of(n, d, bound);
        let m = even_quotient(top(n, e), bottom(d, e));
        if m == bound {
            (bound / 2, e + 1)
        } else {
            (m, e)
        }
    }
}

/// `parts` times `2^by`.
pub open spec fn shifted(parts: (nat, int), by: int) -> (nat, int) {
    if parts.0 == 0 {
        (0, 0)
    } else {
        (parts.0, parts.1 + by)
    }
}

/// The quotient of two numbers, to the nearest.
pub open spec fn quotient(a: (nat, int), b: (nat, int), precision: Precision) -> (nat, int) {
    shifted(nearest(a.0, b.0, precision), a.1 - b.1)
}

/// The product of two numbers, to the nearest.
pub open spec fn product(a: (nat, int), b: (nat, int), precision: Precision) -> (nat, int) {
    shifted(nearest(a.0 * b.0, 1, precision), a.1 + b.1)
}

/// The lower of two exponents.
pub open spec fn lower(a: (nat, int), b: (nat, int)) -> int {
    if a.1 <= b.1 {
        a.1
    } else {
        b.1
    }
}

/// `a` in units of `2^unit`, for a `unit` no higher than its exponent.
pub open spec fn in_units(a: (nat, int), unit: int) -> nat {
    a.0 * pow2((a.1 - unit) as nat)
}

/// The sum of two numbers, to the nearest.
pub open spec fn total(a: (nat, int), b: (nat, int), precision: Precision) -> (nat, int) {
    if a.0 == 0 {
        b
    } else if b.0 == 0 {
        a
    } else {
        let unit = lower(a, b);
        shifted(nearest(in_units(a, unit) + in_units(b, unit), 1, precision), unit)
    }
}

/// The difference of two numbers, the larger less the smaller, to the nearest.
pub open spec fn gap(a: (nat, int), b: (nat, int), precision: Precision) -> (nat, int) {
    let unit = lower(a, b);
    let (x, y) = (in_units(a, unit), in_units(b, unit));
    shifted(
        nearest(
            if x >= y {
                (x - y) as nat
            } else {
                (y - x) as nat
            },
            1,
            precision,
        ),
        unit,
    )
}

/// The whole part of a number.
pub open spec fn whole_part(a: (nat, int)) -> nat {
    top(a.0, -a.1) / bottom(1, -a.1)
}

/// A number times `scale`, to the nearest whole number, ties to even.
pub open spec fn scaled(a: (nat, int), scale: nat) -> nat {
    even_quotient(top(a.0 * scale, -a.1), bottom(1, -a.1))
}

/// A number to the nearest whole number, halves away from zero.
pub open spec fn half_up(a: (nat, int)) -> nat {
    (2 * top(a.0, -a.1) + bottom(1, -a.1)) / (2 * bottom(1, -a.1))
}

/// A number in decimal with `places` digits after the point, up to two of them; the
/// last digit is the nearest, ties to even.
pub open spec fn fixed(a: (nat, int), places: nat) -> Seq<char> {
    if places == 0 {
        text::decimal(scaled(a, 1))
    } else if places == 1 {
        let n = scaled(a, 10);
        text::decimal(n / 10) + seq!['.', text::digit(n % 10)]
    } else {
        let n = scaled(a, 100);
        text::decimal(n / 100) + seq!['.', text::digit((n / 10) % 10), text::digit(n % 10)]
    }
}

/// `a` is the smaller number.
pub open spec fn below(a: (nat, int), b: (nat, int)) -> bool {
    in_units(a, lower(a, b)) < in_units(b, lower(a, b))
}

/// Which of two numbers is smaller shows in any unit that is fine enough.
proof fn lemma_below_in_units(a: (nat, int), b: (nat, int), unit: int)
    requires
        unit <= a.1,
        unit <= b.1,
    ensures
        below(a, b) == (in_units(a, unit) < in_units(b, unit)),
{
    let low = lower(a, b);
    let p = pow2((low - unit) as nat);
    lemma_pow2_pos((low - unit) as nat);
    lemma_pow2_adds((a.1 - low) as nat, (low - unit) as nat);
    lemma_pow2_adds((b.1 - low) as nat, (low - unit) as nat);
    let (x, y) = (in_units(a, low), in_units(b, low));
    let (m, n) = (pow2((a.1 - low) as nat), pow2((b.1 - low) as nat));
    assert((a.1 - low) + (low - unit) == a.1 - unit && (b.1 - low) + (low - unit) == b.1 - unit);
    assert(in_units(a, unit) == x * p) by (nonlinear_arith)
        requires
            in_units(a, unit) == a.0 * (m * p),
            x == a.0 * m,
    ;
    assert(in_units(b, unit) == y * p) by (nonlinear_arith)
        requires
            in_units(b, unit) == b.0 * (n * p),
            y == b.0 * n,
    ;
    assert((x < y) == (x * p < y * p)) by (nonlinear_arith)
        requires
            p > 0,
    ;
}

/// Of two numbers one is not below the other, and what is not below a number is not below
/// anything smaller.
pub proof fn lemma_below_is_an_order(a: (nat, int), b: (nat, int), c: (nat, int))
    ensures
        below(a, b) ==> !below(b, a),
        !below(b, a) && !below(c, b) ==> !below(c, a),
        below(a, b) && !below(c, b) ==> below(a, c),
        !below(b, a) && below(b, c) ==> below(a, c),
{
    let low = lower(a, b);
    let unit = if low <= c.1 {
        low
    } else {
        c.1
    };
    lemma_below_in_units(a, b, unit);
    lemma_below_in_units(b, a, unit);
    lemma_below_in_units(b, c, unit);
    lemma_below_in_units(c, b, unit);
    lemma_below_in_units(a, c, unit);
    lemma_below_in_units(c, a, unit);
}

/// A ratio that is large for an exponent overflows every lower one.
proof fn lemma_lower_exponent_overflows(n: nat, d: nat, bound: nat, low: int, high: int)
    requires
        d > 0,
        low < high,
        bound * bottom(d, high) <= 2 * top(n, high),
    ensures
        top(n, low) >= bound * bottom(d, low),
{
    let k = (high - low) as nat;
    let (n1, d1) = (pow2(above(-low)), pow2(above(low)));
    let (n2, d2) = (pow2(above(-high)), pow2(above(high)));
    lemma_pow2_adds(above(-low), above(high));
    lemma_pow2_adds(above(-high), above(low));
    lemma_pow2_adds(k, above(-high) + above(low));
    assert(above(-low) + above(high) == k + above(-high) + above(low));
    assert(n1 * d2 == pow2(k) * (n2 * d1));
    lemma_pow2_pos(k);
    lemma_pow2_pos(above(low));
    lemma_pow2_pos(above(high));
    lemma_pow2_strictly_increases(0, k);
    lemma2_to64();
    let p = pow2(k);
    let (t1, b1) = (top(n, low), bottom(d, low));
    let (t2, b2) = (top(n, high), bottom(d, high));
    assert((n * n1) * (d * d2) == (n * d) * (n1 * d2)) by (nonlinear_arith);
    assert((n * d) * (p * (n2 * d1)) == p * ((n * n2) * (d * d1))) by (nonlinear_arith);
    assert(t1 * b2 == p * (t2 * b1));
    assert(b1 > 0 && b2 > 0) by (nonlinear_arith)
        requires
            b1 == d * d1,
            b2 == d * d2,
            d > 0,
            d1 > 0,
            d2 > 0,
    ;
    assert((bound * b1) * b2 <= t1 * b2) by (nonlinear_arith)
        requires
            t1 * b2 == p * (t2 * b1),
            p >= 2,
            bound * b2 <= 2 * t2,
            b1 > 0,
    {
        assert(p * (t2 * b1) >= 2 * (t2 * b1));
        assert(2 * t2 * b1 >= bound * b2 * b1);
    }
    lemma_mul_inequality_converse((bound * b1) as int, t1 as int, b2 as int);
}

/// The exponent a ratio settles at is unique, and lies between any exponent the ratio
/// is large for and any it does not overflow.
proof fn lemma_exponent(n: nat, d: nat, bound: nat, e: int, low: int, high: int)
    requires
        d > 0,
        settles(n, d, bound, e),
        bound * bottom(d, low) <= 2 * top(n, low),
        top(n, high) < bound * bottom(d, high),
    ensures
        exponent_of(n, d, bound) == e,
        low <= e <= high,
{
    let chosen = exponent_of(n, d, bound);
    assert(settles(n, d, bound, chosen));
    if chosen < e {
        lemma_lower_exponent_overflows(n, d, bound, chosen, e);
    }
    if e < chosen {
        lemma_lower_exponent_overflows(n, d, bound, e, chosen);
    }
    if e < low {
        lemma_lower_exponent_overflows(n, d, bound, e, low);
    }
    if high < e {
        lemma_lower_exponent_overflows(n, d, bound, high, e);
    }
}

/// A ratio that overflows an exponent is large for the next.
proof fn lemma_next_exponent_is_large(n: nat, d: nat, bound: nat, e: int)
    requires
        bound * bottom(d, e) <= top(n, e),
    ensures
        bound * bottom(d, e + 1) <= 2 * top(n, e + 1),
{
    let (t, b) = (top(n, e), bottom(d, e));
    if e >= 0 {
        lemma_pow2_unfold((e + 1) as nat);
        let p = pow2(e as nat);
        assert(above(e + 1) == e + 1 && above(e) == e);
        assert(above(-(e + 1)) == 0 && above(-e) == 0);
        assert(d * (2 * p) == 2 * (d * p)) by (nonlinear_arith);
        assert(bound * (2 * b) == 2 * (bound * b)) by (nonlinear_arith);
    } else {
        lemma_pow2_unfold((-e) as nat);
        let p = pow2((-e - 1) as nat);
        assert(above(e + 1) == 0 && above(e) == 0);
        assert(above(-(e + 1)) == -e - 1 && above(-e) == -e);
        assert(n * (2 * p) == 2 * (n * p)) by (nonlinear_arith);
    }
}

/// Between an exponent the ratio is large for and one it does not overflow there is the
/// one it settles at.
proof fn lemma_settles_between(n: nat, d: nat, bound: nat, low: int, high: int)
    requires
        d > 0,
        bound * bottom(d, low) <= 2 * top(n, low),
        top(n, high) < bound * bottom(d, high),
    ensures
        settles(n, d, bound, exponent_of(n, d, bound)),
        low <= exponent_of(n, d, bound) <= high,
    decreases high - low,
{
    if high < low {
        lemma_lower_exponent_overflows(n, d, bound, high, low);
    } else if top(n, low) < bound * bottom(d, low) {
        assert(settles(n, d, bound, low));
        lemma_exponent(n, d, bound, low, low, high);
    } else {
        lemma_next_exponent_is_large(n, d, bound, low);
        assert(low < high);
        lemma_settles_between(n, d, bound, low + 1, high);
    }
}

/// `a` and `b` lie within half of `unit` of each other.
pub open spec fn within_half(a: int, b: int, unit: int) -> bool {
    -unit <= 2 * (a - b) <= unit
}

/// The nearest number fills its precision and lies within half of its last place.
pub proof fn lemma_nearest_is_near(n: nat, d: nat, precision: Precision, low: int, high: int)
    requires
        n > 0,
        d > 0,
        limit(precision) * bottom(d, low) <= 2 * top(n, low),
        top(n, high) < limit(precision) * bottom(d, high),
    ensures
        ({
            let (m, e) = nearest(n, d, precision);
            &&& limit(precision) <= 2 * m < 2 * limit(precision)
            &&& low <= e <= high + 1
            &&& within_half((m * bottom(d, e)) as int, top(n, e) as int, bottom(d, e) as int)
        }),
{
    let bound = limit(precision);
    lemma_settles_between(n, d, bound, low, high);
    let e = exponent_of(n, d, bound);
    let (t, b) = (top(n, e), bottom(d, e));
    lemma_pow2_pos(above(e));
    let power = pow2(above(e));
    assert(b > 0) by (nonlinear_arith)
        requires
            b == d * power,
            d > 0,
            power > 0,
    ;
    let (q, r) = (t / b, t % b);
    vstd::arithmetic::div_mod::lemma_fundamental_div_mod(t as int, b as int);
    assert(q < bound) by (nonlinear_arith)
        requires
            t == b * q + r,
            r >= 0,
            t < bound * b,
            b > 0,
    ;
    assert(bound <= 2 * q + 1) by {
        assert(bound * b < (2 * q + 2) * b) by (nonlinear_arith)
            requires
                t == b * q + r,
                r < b,
                bound * b <= 2 * t,
        ;
        lemma_mul_strict_inequality_converse(bound as int, (2 * q + 2) as int, b as int);
    }
    let m = even_quotient(t, b);
    assert(q * b == b * q && (q + 1) * b == b * q + b) by (nonlinear_arith);
    assert(within_half((m * b) as int, t as int, b as int));
    if m == bound {
        assert(bound % 2 == 0);
        let half = bound / 2;
        if e >= 0 {
            lemma_pow2_unfold((e + 1) as nat);
            let p = pow2(e as nat);
            assert(above(e + 1) == e + 1 && above(e) == e);
            assert(above(-(e + 1)) == 0 && above(-e) == 0);
            assert(d * (2 * p) == 2 * (d * p)) by (nonlinear_arith);
            assert(half * (2 * b) == bound * b) by (nonlinear_arith)
                requires
                    2 * half == bound,
            ;
        } else {
            lemma_pow2_unfold((-e) as nat);
            let p = pow2((-e - 1) as nat);
            assert(above(e + 1) == 0 && above(e) == 0);
            assert(above(-(e + 1)) == -e - 1 && above(-e) == -e);
            assert(n * (2 * p) == 2 * (n * p)) by (nonlinear_arith);
            assert(2 * (half * b) == bound * b) by (nonlinear_arith)
                requires
                    2 * half == bound,
            ;
        }
    } else {
        assert(bound <= 2 * m) by {
            assert(bound % 2 == 0);
        }
    }
}

/// Every ratio settles at some exponent.
proof fn lemma_settles(n: nat, d: nat, bound: nat)
    requires
        n > 0,
        d > 0,
        bound > 1,
    ensures
        settles(n, d, bound, exponent_of(n, d, bound)),
{
    let (low, high) = (-((bound * d) as int), n as int);
    let (p, q) = (pow2(bound * d), pow2(n));
    lemma_pow2_grows(bound * d);
    lemma_pow2_grows(n);
    lemma2_to64();
    assert(bound * d > 0) by (nonlinear_arith)
        requires
            bound > 1,
            d > 0,
    ;
    assert(above(-low) == bound * d && above(low) == 0);
    assert(above(-high) == 0 && above(high) == n);
    assert(bound * (d * 1) <= 2 * (n * p)) by (nonlinear_arith)
        requires
            bound * d <= p,
            n > 0,
    ;
    assert(n * 1 < bound * (d * q)) by (nonlinear_arith)
        requires
            n <= q,
            bound > 1,
            d > 0,
            q > 0,
    ;
    lemma_settles_between(n, d, bound, low, high);
}

/// A power of two is more than its exponent.
proof fn lemma_pow2_grows(k: nat)
    ensures
        k < pow2(k),
    decreases k,
{
    lemma2_to64();
    if k > 0 {
        lemma_pow2_grows((k - 1) as nat);
        lemma_pow2_unfold(k);
    }
}

/// A larger ratio has no smaller nearest whole number.
proof fn lemma_even_quotient_grows(n: nat, d: nat, m: nat, f: nat)
    requires
        d > 0,
        f > 0,
        n * f <= m * d,
    ensures
        even_quotient(n, d) <= even_quotient(m, f),
{
    let (a, r) = (n / d, n % d);
    let (b, t) = (m / f, m % f);
    vstd::arithmetic::div_mod::lemma_fundamental_div_mod(n as int, d as int);
    vstd::arithmetic::div_mod::lemma_fundamental_div_mod(m as int, f as int);
    assert(n == d * a + r && m == f * b + t && r < d && t < f);
    assert(a <= b) by {
        if a >= b + 1 {
            assert(n * f >= (d * (b + 1)) * f) by (nonlinear_arith)
                requires
                    n == d * a + r,
                    a >= b + 1,
                    r >= 0,
                    d > 0,
                    f > 0,
            ;
            assert(m * d < (f * (b + 1)) * d) by (nonlinear_arith)
                requires
                    m == f * b + t,
                    t < f,
                    d > 0,
            ;
            assert((d * (b + 1)) * f == (f * (b + 1)) * d) by (nonlinear_arith);
        }
    }
    if a == b {
        assert(r * f <= t * d) by (nonlinear_arith)
            requires
                n == d * a + r,
                m == f * b + t,
                a == b,
                n * f <= m * d,
        ;
        if 2 * t < f {
            assert(2 * r < d) by (nonlinear_arith)
                requires
                    r * f <= t * d,
                    2 * t < f,
                    d > 0,
                    f > 0,
                    r >= 0,
                    t >= 0,
            ;
        } else if 2 * t == f {
            assert(2 * r <= d) by (nonlinear_arith)
                requires
                    r * f <= t * d,
                    2 * t == f,
                    f > 0,
            ;
        }
    }
}

/// A larger ratio has no smaller nearest number: rounding never turns an order round.
pub proof fn law_rounding_keeps_the_order(n: nat, d: nat, m: nat, f: nat, precision: Precision)
    requires
        d > 0,
        f > 0,
        n * f <= m * d,
    ensures
        !below(nearest(m, f, precision), nearest(n, d, precision)),
{
    let bound = limit(precision);
    let (x, y) = (nearest(n, d, precision), nearest(m, f, precision));
    lemma2_to64();
    if n == 0 {
        let k = pow2((0 - lower(y, x)) as nat);
        assert(in_units(x, lower(y, x)) == 0 * k);
        assert(0 * k == 0) by (nonlinear_arith);
        return;
    }
    assert(m > 0) by {
        if m == 0 {
            assert(n * f > 0) by (nonlinear_arith)
                requires
                    n > 0,
                    f > 0,
            ;
            assert(m * d == 0) by (nonlinear_arith)
                requires
                    m == 0,
            ;
        }
    }
    lemma_settles(n, d, bound);
    lemma_settles(m, f, bound);
    let (e, g) = (exponent_of(n, d, bound), exponent_of(m, f, bound));
    let (t, b) = (top(n, e), bottom(d, e));
    let (u, c) = (top(m, g), bottom(f, g));
    lemma_bottom_is_positive(d, e);
    lemma_bottom_is_positive(f, g);
    let (i, j) = (even_quotient(t, b), even_quotient(u, c));
    lemma_even_quotient_fills(t, b, bound);
    lemma_even_quotient_fills(u, c, bound);
    if e == g {
        lemma_same_exponent(n, d, m, f, e);
        lemma_even_quotient_grows(t, b, u, c);
        lemma_pow2_unfold(1);
        assert(pow2(1) == 2);
        let low = lower(y, x);
        if i == bound {
            assert(j == bound);
        } else if j == bound {
            assert(low == e);
            assert(in_units(y, low) == (bound / 2) * 2);
            assert(in_units(x, low) == i * 1);
        } else {
            assert(in_units(y, low) == j * 1 && in_units(x, low) == i * 1);
        }
    } else if e < g {
        let low = lower(y, x);
        // The smaller is at most the bound in units of the lower exponent.
        let (high, p) = ((g - e) as nat, pow2((g - e) as nat));
        lemma_pow2_unfold(high);
        let half = pow2((high - 1) as nat);
        lemma_pow2_pos((high - 1) as nat);
        let (v, w) = (y.1, x.1);
        lemma_below_in_units(y, x, e);
        assert(in_units(x, e) <= bound) by {
            if i == bound {
                lemma_pow2_unfold(1);
                assert(x == ((bound / 2) as nat, e + 1));
            } else {
                assert(in_units(x, e) == i * 1);
            }
        }
        assert(in_units(y, e) >= bound) by {
            if j == bound {
                lemma_pow2_unfold(high + 1);
                assert(in_units(y, e) == (bound / 2) * (2 * p));
                assert((bound / 2) * (2 * p) >= bound) by (nonlinear_arith)
                    requires
                        p >= 1,
                        bound % 2 == 0,
                ;
            } else {
                assert(in_units(y, e) == j * p);
                assert(j * p >= bound) by (nonlinear_arith)
                    requires
                        2 * j >= bound,
                        p == 2 * half,
                        half >= 1,
                ;
            }
        }
    } else {
        // The smaller ratio would be large where the larger one does not overflow.
        lemma_lower_exponent_overflows(n, d, bound, g, e);
        lemma_same_exponent(n, d, m, f, g);
        let (r, q) = (top(n, g), bottom(d, g));
        lemma_bottom_is_positive(d, g);
        assert(false) by (nonlinear_arith)
            requires
                r * c <= u * q,
                r >= bound * q,
                u < bound * c,
                q > 0,
                c > 0,
        {
            assert(r * c >= bound * q * c);
            assert(u * q < bound * c * q);
        }
    }
}

proof fn lemma_bottom_is_positive(d: nat, e: int)
    requires
        d > 0,
    ensures
        bottom(d, e) > 0,
{
    let p = pow2(above(e));
    lemma_pow2_pos(above(e));
    assert(d * p > 0) by (nonlinear_arith)
        requires
            d > 0,
            p > 0,
    ;
}

/// Two ratios at one exponent stand as they do without it.
proof fn lemma_same_exponent(n: nat, d: nat, m: nat, f: nat, e: int)
    requires
        n * f <= m * d,
    ensures
        top(n, e) * bottom(f, e) <= top(m, e) * bottom(d, e),
{
    let (p, q) = (pow2(above(-e)), pow2(above(e)));
    assert((n * p) * (f * q) == (n * f) * (p * q)) by (nonlinear_arith);
    assert((m * p) * (d * q) == (m * d) * (p * q)) by (nonlinear_arith);
    assert((n * f) * (p * q) <= (m * d) * (p * q)) by (nonlinear_arith)
        requires
            n * f <= m * d,
    ;
}

/// The nearest whole number to a ratio that fills a significand fills it too, or is just
/// past it.
proof fn lemma_even_quotient_fills(t: nat, b: nat, bound: nat)
    requires
        b > 0,
        bound % 2 == 0,
        bound * b <= 2 * t,
        t < bound * b,
    ensures
        bound <= 2 * even_quotient(t, b),
        even_quotient(t, b) <= bound,
{
    let (q, r) = (t / b, t % b);
    vstd::arithmetic::div_mod::lemma_fundamental_div_mod(t as int, b as int);
    assert(q < bound) by (nonlinear_arith)
        requires
            t == b * q + r,
            r >= 0,
            t < bound * b,
            b > 0,
    ;
    assert(bound * b < (2 * q + 2) * b) by (nonlinear_arith)
        requires
            t == b * q + r,
            r < b,
            bound * b <= 2 * t,
    ;
    lemma_mul_strict_inequality_converse(bound as int, (2 * q + 2) as int, b as int);
}

/// Two ratios that are one at their exponents settle there together, at one significand.
proof fn lemma_same_ratio(n: nat, d: nat, m: nat, f: nat, e: int, g: int, bound: nat)
    requires
        d > 0,
        f > 0,
        m > 0,
        bound > 1,
        settles(n, d, bound, e),
        top(n, e) * bottom(f, g) == top(m, g) * bottom(d, e),
    ensures
        exponent_of(m, f, bound) == g,
        even_quotient(top(m, g), bottom(f, g)) == even_quotient(top(n, e), bottom(d, e)),
{
    let (t, b) = (top(n, e), bottom(d, e));
    let (u, c) = (top(m, g), bottom(f, g));
    lemma_bottom_is_positive(d, e);
    lemma_bottom_is_positive(f, g);
    assert(bound * c <= 2 * u) by {
        assert((bound * c) * b <= (2 * u) * b) by (nonlinear_arith)
            requires
                t * c == u * b,
                bound * b <= 2 * t,
        ;
        lemma_mul_inequality_converse((bound * c) as int, (2 * u) as int, b as int);
    }
    assert(u < bound * c) by {
        assert(u * b < (bound * c) * b) by (nonlinear_arith)
            requires
                t * c == u * b,
                t < bound * b,
                c > 0,
        ;
        lemma_mul_strict_inequality_converse(u as int, (bound * c) as int, b as int);
    }
    assert(settles(m, f, bound, g));
    lemma_exponent(m, f, bound, g, g, g);
    lemma_even_quotient_grows(t, b, u, c);
    lemma_even_quotient_grows(u, c, t, b);
}

/// A ratio that is `2^k` as large has a nearest number that is `2^k` as large.
pub proof fn lemma_nearest_shifts(n: nat, d: nat, k: nat, precision: Precision)
    requires
        d > 0,
    ensures
        nearest(n * pow2(k), d, precision) == shifted(nearest(n, d, precision), k as int),
        nearest(n, d * pow2(k), precision) == shifted(nearest(n, d, precision), -k),
{
    let (p, bound) = (pow2(k), limit(precision));
    lemma_pow2_pos(k);
    if n == 0 {
        assert(0 * p == 0) by (nonlinear_arith);
        return;
    }
    assert(n * p > 0 && d * p > 0) by (nonlinear_arith)
        requires
            n > 0,
            d > 0,
            p > 0,
    ;
    lemma_settles(n, d, bound);
    let e = exponent_of(n, d, bound);
    lemma_bottom_is_positive(d, e);
    lemma_even_quotient_fills(top(n, e), bottom(d, e), bound);
    assert(top(n, e) * bottom(d, e + k) == top(n * p, e + k) * bottom(d, e)) by {
        let (a, b) = (pow2(above(-e)), pow2(above(e + k)));
        let (x, y) = (pow2(above(-(e + k))), pow2(above(e)));
        lemma_pow2_adds(above(-e), above(e + k));
        lemma_pow2_adds(k, above(-(e + k)));
        lemma_pow2_adds(k + above(-(e + k)), above(e));
        assert(a * b == (p * x) * y);
        assert((n * a) * (d * b) == (n * d) * (a * b)) by (nonlinear_arith);
        assert(((n * p) * x) * (d * y) == (n * d) * ((p * x) * y)) by (nonlinear_arith);
    }
    assert(top(n, e) * bottom(d * p, e - k) == top(n, e - k) * bottom(d, e)) by {
        let (a, b) = (pow2(above(-e)), pow2(above(e - k)));
        let (x, y) = (pow2(above(-(e - k))), pow2(above(e)));
        lemma_pow2_adds(k, above(e - k));
        lemma_pow2_adds(above(-e), k + above(e - k));
        lemma_pow2_adds(above(-(e - k)), above(e));
        assert(a * (p * b) == x * y);
        assert((n * a) * ((d * p) * b) == (n * d) * (a * (p * b))) by (nonlinear_arith);
        assert((n * x) * (d * y) == (n * d) * (x * y)) by (nonlinear_arith);
    }
    lemma_same_ratio(n, d, n * p, d, e, e + k, bound);
    lemma_same_ratio(n, d, n, d * p, e, e - k, bound);
}

/// The nearest number fills its precision.
pub proof fn lemma_nearest_fills(n: nat, d: nat, precision: Precision)
    requires
        n > 0,
        d > 0,
    ensures
        limit(precision) <= 2 * nearest(n, d, precision).0,
        nearest(n, d, precision).0 < limit(precision),
{
    let bound = limit(precision);
    lemma_settles(n, d, bound);
    let e = exponent_of(n, d, bound);
    lemma_bottom_is_positive(d, e);
    lemma_even_quotient_fills(top(n, e), bottom(d, e), bound);
}

/// Two numbers keep their order when both are shifted alike.
proof fn lemma_shifting_keeps_the_order(a: (nat, int), b: (nat, int), k: int)
    requires
        a.0 == 0 ==> a.1 == 0,
        b.0 == 0 ==> b.1 == 0,
    ensures
        below(shifted(a, k), shifted(b, k)) == below(a, b),
{
    let (x, y) = (shifted(a, k), shifted(b, k));
    if a.0 == 0 {
        lemma_zero_is_least(b);
        lemma_zero_is_least(y);
    } else if b.0 == 0 {
        lemma_zero_is_least(a);
        lemma_zero_is_least(x);
    } else {
        assert(lower(x, y) == lower(a, b) + k);
    }
}

/// Zero is below everything but zero.
proof fn lemma_zero_is_least(a: (nat, int))
    ensures
        below((0, 0), a) == (a.0 > 0),
        !below(a, (0, 0)),
{
    let (low, unit) = (lower((0, 0), a), lower(a, (0, 0)));
    let (p, q) = (pow2((0 - low) as nat), pow2((a.1 - low) as nat));
    lemma_pow2_pos((a.1 - low) as nat);
    assert(0 * p == 0) by (nonlinear_arith);
    assert((a.0 * q > 0) == (a.0 > 0)) by (nonlinear_arith)
        requires
            q > 0,
    ;
    assert(low == unit);
}

/// A quotient, worked out in other units.
proof fn lemma_quotient_in_units(
    a: (nat, int),
    b: (nat, int),
    u: int,
    v: int,
    precision: Precision,
)
    requires
        b.0 > 0,
        u <= a.1,
        v <= b.1,
    ensures
        quotient(a, b, precision) == shifted(
            nearest(in_units(a, u), in_units(b, v), precision),
            u - v,
        ),
{
    lemma_nearest_shifts(a.0, b.0, (a.1 - u) as nat, precision);
    lemma_nearest_shifts(in_units(a, u), b.0, (b.1 - v) as nat, precision);
}

/// A larger number over a smaller one has no smaller quotient.
pub proof fn lemma_quotient_grows(
    a: (nat, int),
    b: (nat, int),
    c: (nat, int),
    d: (nat, int),
    precision: Precision,
)
    requires
        b.0 > 0,
        d.0 > 0,
        !below(c, a),
        !below(b, d),
    ensures
        !below(quotient(c, d, precision), quotient(a, b, precision)),
{
    let (u, v) = (lower(c, a), lower(b, d));
    lemma_quotient_in_units(a, b, u, v, precision);
    lemma_quotient_in_units(c, d, u, v, precision);
    let (x, y) = (in_units(a, u), in_units(b, v));
    let (z, w) = (in_units(c, u), in_units(d, v));
    let (p, q) = (pow2((b.1 - v) as nat), pow2((d.1 - v) as nat));
    lemma_pow2_pos((b.1 - v) as nat);
    lemma_pow2_pos((d.1 - v) as nat);
    assert(y > 0 && w > 0) by (nonlinear_arith)
        requires
            y == b.0 * p,
            w == d.0 * q,
            b.0 > 0,
            d.0 > 0,
            p > 0,
            q > 0,
    ;
    assert(x * w <= z * y) by (nonlinear_arith)
        requires
            x <= z,
            w <= y,
    ;
    law_rounding_keeps_the_order(x, y, z, w, precision);
    if x > 0 {
        lemma_nearest_fills(x, y, precision);
    }
    if z > 0 {
        lemma_nearest_fills(z, w, precision);
    }
    lemma_shifting_keeps_the_order(
        nearest(z, w, precision),
        nearest(x, y, precision),
        u - v,
    );
}

/// Two numbers that fill their precision, neither below the other, are one.
proof fn lemma_neither_below(a: (nat, int), b: (nat, int), precision: Precision)
    requires
        a.0 == 0 ==> a.1 == 0,
        b.0 == 0 ==> b.1 == 0,
        a.0 > 0 ==> limit(precision) <= 2 * a.0 && a.0 < limit(precision),
        b.0 > 0 ==> limit(precision) <= 2 * b.0 && b.0 < limit(precision),
        !below(a, b),
        !below(b, a),
    ensures
        a == b,
{
    if a.0 == 0 {
        lemma_zero_is_least(b);
    } else if b.0 == 0 {
        lemma_zero_is_least(a);
    } else {
        lemma2_to64();
        let low = lower(a, b);
        assert(low == lower(b, a));
        if a.1 == b.1 {
            assert(in_units(a, low) == a.0 * 1 && in_units(b, low) == b.0 * 1);
        } else {
            let (m, n, k) = if a.1 < b.1 {
                (a.0, b.0, (b.1 - a.1) as nat)
            } else {
                (b.0, a.0, (a.1 - b.1) as nat)
            };
            let p = pow2(k);
            lemma_pow2_unfold(k);
            lemma_pow2_pos((k - 1) as nat);
            assert(m * 1 == n * p);
            assert(n * p >= 2 * n) by (nonlinear_arith)
                requires
                    p >= 2,
            ;
        }
    }
}

/// Twice a number is above it.
pub proof fn lemma_double_is_above(a: (nat, int), b: (nat, int))
    requires
        a.0 > 0,
        !below(b, (a.0, a.1 + 1)),
    ensures
        below(a, b),
{
    let twice = (a.0, a.1 + 1);
    lemma2_to64();
    assert(in_units(a, a.1) == a.0 * 1);
    assert(in_units(twice, a.1) == a.0 * 2);
    assert(below(a, twice));
    lemma_below_is_an_order(a, twice, b);
}

/// How the ratio of two counts goes with them: more over less is no less in either
/// precision, twice as much over no more, or as much over no more than half, is more, and
/// ratios that differ at all differ that way.
pub proof fn law_ratios_go_with_their_counts(n: nat, d: nat, m: nat, f: nat, precision: Precision)
    requires
        n <= m,
        0 < f <= d,
    ensures
        ({
            let less = quotient(nearest(n, 1, precision), nearest(d, 1, precision), precision);
            let more = quotient(nearest(m, 1, precision), nearest(f, 1, precision), precision);
            &&& !below(more, less)
            &&& less != more ==> below(less, more)
            &&& m > 0 && (2 * n <= m || 2 * f <= d) ==> below(less, more)
        }),
{
    let (a, b) = (nearest(n, 1, precision), nearest(d, 1, precision));
    let (c, g) = (nearest(m, 1, precision), nearest(f, 1, precision));
    let (less, more) = (quotient(a, b, precision), quotient(c, g, precision));
    law_rounding_keeps_the_order(n, 1, m, 1, precision);
    law_rounding_keeps_the_order(f, 1, d, 1, precision);
    lemma_nearest_fills(d, 1, precision);
    lemma_nearest_fills(f, 1, precision);
    lemma_quotient_grows(a, b, c, g, precision);
    if n > 0 {
        lemma_nearest_fills(n, 1, precision);
        lemma_nearest_fills(a.0, b.0, precision);
    }
    if m > 0 {
        lemma_nearest_fills(m, 1, precision);
        lemma_nearest_fills(c.0, g.0, precision);
    }
    if less != more && !below(less, more) {
        lemma_neither_below(less, more, precision);
    }
    if m > 0 && (2 * n <= m || 2 * f <= d) {
        lemma2_to64();
        if n == 0 {
            lemma_zero_is_least(more);
        } else if 2 * n <= m {
            lemma_nearest_shifts(n, 1, 1, precision);
            assert(n * pow2(1) == 2 * n);
            law_rounding_keeps_the_order(2 * n, 1, m, 1, precision);
            let twice = (a.0, a.1 + 1);
            lemma_quotient_grows(twice, b, c, g, precision);
            lemma_double_is_above(less, more);
        } else {
            lemma_nearest_shifts(f, 1, 1, precision);
            assert(f * pow2(1) == 2 * f);
            law_rounding_keeps_the_order(2 * f, 1, d, 1, precision);
            let twice = (g.0, g.1 + 1);
            lemma_quotient_grows(a, b, c, twice, precision);
            let half = quotient(c, twice, precision);
            assert(more == (half.0, half.1 + 1));
            lemma_double_is_above(half, more);
            lemma_below_is_an_order(less, half, more);
        }
    }
}

/// A whole number below the limit is its own nearest number.
pub proof fn lemma_small_is_exact(n: nat, precision: Precision)
    requires
        0 < n < limit(precision),
    ensures
        ({
            let (m, e) = nearest(n, 1, precision);
            &&& limit(precision) <= 2 * m < 2 * limit(precision)
            &&& -depth(precision) <= e <= 0
            &&& m == n * pow2((-e) as nat)
        }),
{
    let bound = limit(precision);
    let low = -depth(precision);
    lemma2_to64();
    lemma2_to64_rest();
    let (a, c) = (pow2(above(-low)), pow2(0));
    assert(2 * a == bound && c == 1);
    assert(bound <= 2 * (n * a)) by (nonlinear_arith)
        requires
            2 * a == bound,
            n > 0,
    ;
    assert(n * c == n) by (nonlinear_arith)
        requires
            c == 1,
    ;
    assert(top(n, low) == n * a && bottom(1, low) == 1);
    assert(top(n, 0) == n && bottom(1, 0) == 1);
    lemma_settles_between(n, 1, bound, low, 0);
    let e = exponent_of(n, 1, bound);
    assert(above(e) == 0 && above(-e) == -e);
    let t = top(n, e);
    assert(bottom(1, e) == 1);
    assert(t / 1 == t && t % 1 == 0);
    assert(even_quotient(t, 1) == t);
}

/// `2^e` stays below `2^127` only for an `e` below 127.
proof fn lemma_small_power(e: nat)
    requires
        pow2(e) < pow2(127),
    ensures
        e < 127,
{
    if e > 127 {
        lemma_pow2_strictly_increases(127, e);
    }
}

/// `2^127`, spelled out.
proof fn lemma_pow2_127()
    ensures
        pow2(127) == 0x8000_0000_0000_0000_0000_0000_0000_0000,
{
    lemma2_to64();
    lemma2_to64_rest();
    lemma_pow2_adds(63, 64);
    assert(0x8000_0000_0000_0000 * 0x1_0000_0000_0000_0000
        == 0x8000_0000_0000_0000_0000_0000_0000_0000);
}

/// One past the largest significand.
fn limit_of(precision: Precision) -> (out: u128)
    ensures
        out == limit(precision),
        out % 2 == 0,
        0x100_0000 <= out <= 0x20_0000_0000_0000,
{
    match precision {
        Precision::Single => 0x100_0000,
        Precision::Double => 0x20_0000_0000_0000,
    }
}

/// The number nearest to `n / d`, ties to even. The ratio is large for the exponent
/// `low` and does not overflow at `high`.
fn round(
    n: u128,
    d: u128,
    precision: Precision,
    Ghost(low): Ghost<int>,
    Ghost(high): Ghost<int>,
) -> (out: Number)
    requires
        d > 0,
        n > 0 ==> limit(precision) * bottom(d as nat, low) <= 2 * top(n as nat, low),
        n > 0 ==> top(n as nat, high) < limit(precision) * bottom(d as nat, high),
        n < 0x4000_0000_0000_0000_0000_0000_0000_0000,
        d <= 0x20_0000_0000_0000,
    ensures
        out.parts() == nearest(n as nat, d as nat, precision),
        n == 0 <==> out.significand == 0,
        out.fills(precision),
        n > 0 ==> low <= out.exponent <= high + 1,
        -128 <= out.exponent <= 128,
{
    if n == 0 {
        return Number { significand: 0, exponent: 0 };
    }
    let bound: u128 = limit_of(precision);
    let mut num: u128 = n;
    let mut den: u128 = d;
    let mut e: i128 = 0;
    assert(bound * den <= 0x20_0000_0000_0000 * 0x20_0000_0000_0000) by (nonlinear_arith)
        requires
            bound <= 0x20_0000_0000_0000,
            den <= 0x20_0000_0000_0000,
    ;
    proof {
        lemma_pow2_127();
        lemma2_to64();
        let one = pow2(0);
        assert(n * one == n && d * one == d) by (nonlinear_arith)
            requires
                one == 1,
        ;
    }
    while num >= bound * den
        invariant
            0 < n < 0x4000_0000_0000_0000_0000_0000_0000_0000,
            0 < d,
            num == n,
            bound == limit(precision),
            0x100_0000 <= bound <= 0x20_0000_0000_0000,
            bound * den < 0x8000_0000_0000_0000_0000_0000_0000_0000,
            pow2(127) == 0x8000_0000_0000_0000_0000_0000_0000_0000,
            pow2(0) == 1,
            0 <= e <= 127,
            den > 0,
            den as nat == bottom(d as nat, e as int),
            num as nat == top(n as nat, e as int),
            e > 0 ==> bound * den <= 2 * num,
        decreases 128 - e,
    {
        proof {
            lemma_pow2_unfold((e + 1) as nat);
            lemma_pow2_pos(e as nat);
            let power = pow2(e as nat);
            assert(d * (2 * power) == 2 * (d * power)) by (nonlinear_arith);
            assert(bound * (den * 2) == 2 * (bound * den)) by (nonlinear_arith);
            assert(power <= den) by (nonlinear_arith)
                requires
                    den == d * power,
                    d > 0,
            ;
            assert(den < bound * den) by (nonlinear_arith)
                requires
                    bound > 1,
                    den > 0,
            ;
            lemma_small_power(e as nat);
            assert(above(-(e + 1)) == 0);
            assert(above(-(e as int)) == 0);
        }
        den = den * 2;
        e = e + 1;
    }
    while 2 * num < bound * den
        invariant
            0 < n < 0x4000_0000_0000_0000_0000_0000_0000_0000,
            0 < num,
            0 < d,
            bound == limit(precision),
            0x100_0000 <= bound <= 0x20_0000_0000_0000,
            num < bound * den < 0x8000_0000_0000_0000_0000_0000_0000_0000,
            pow2(127) == 0x8000_0000_0000_0000_0000_0000_0000_0000,
            pow2(0) == 1,
            -127 <= e <= 127,
            den > 0,
            den as nat == bottom(d as nat, e as int),
            num as nat == top(n as nat, e as int),
            e > 0 ==> bound * den <= 2 * num,
        decreases e + 128,
    {
        proof {
            assert(e <= 0);
            let k = above(-(e as int));
            lemma_pow2_unfold(k + 1);
            lemma_pow2_pos(k);
            let power = pow2(k);
            assert(n * (2 * power) == 2 * (n * power)) by (nonlinear_arith);
            assert(power <= num) by (nonlinear_arith)
                requires
                    num == n * power,
                    n > 0,
            ;
            lemma_small_power(k);
            assert(above(-(e - 1)) == k + 1);
            assert(above(e - 1) == 0);
            assert(above(e as int) == 0);
        }
        num = num * 2;
        e = e - 1;
    }
    proof {
        assert(settles(n as nat, d as nat, bound as nat, e as int));
        lemma_exponent(n as nat, d as nat, bound as nat, e as int, low, high);
    }
    let quotient: u128 = num / den;
    let rest: u128 = num % den;
    proof {
        let (q, r) = (quotient as int, rest as int);
        vstd::arithmetic::div_mod::lemma_fundamental_div_mod(num as int, den as int);
        assert(q < bound) by (nonlinear_arith)
            requires
                num == den * q + r,
                r >= 0,
                num < bound * den,
                den > 0,
        ;
        assert(bound * den < (2 * q + 2) * den) by (nonlinear_arith)
            requires
                num == den * q + r,
                r < den,
                bound * den <= 2 * num,
        ;
        lemma_mul_strict_inequality_converse(bound as int, 2 * q + 2, den as int);
        assert(rest < den);
        assert(den < bound * den) by (nonlinear_arith)
            requires
                bound > 1,
                den > 0,
        ;
    }
    if 2 * rest < den || (2 * rest == den && quotient % 2 == 0) {
        Number { significand: quotient as u64, exponent: e }
    } else if quotient + 1 == bound {
        Number { significand: (bound / 2) as u64, exponent: e + 1 }
    } else {
        Number { significand: (quotient + 1) as u64, exponent: e }
    }
}

/// The most significand bits below the top one.
pub open spec fn depth(precision: Precision) -> int {
    match precision {
        Precision::Single => 23,
        Precision::Double => 52,
    }
}

/// `value` to the nearest number.
pub fn whole(value: u64, precision: Precision) -> (out: Number)
    ensures
        out.parts() == nearest(value as nat, 1, precision),
        out.fills(precision),
        value == 0 <==> out.significand == 0,
        -depth(precision) <= out.exponent <= 65 - depth(precision),
        value < 0x100_0000 ==> out.exponent <= 1,
{
    let ghost low = -depth(precision);
    let ghost high = if value < 0x100_0000 {
        0
    } else {
        64 - depth(precision)
    };
    proof {
        lemma2_to64();
        lemma2_to64_rest();
        let (n, bound) = (value as nat, limit(precision));
        let (a, b, c) = (pow2(above(-low)), pow2(above(high)), pow2(0));
        assert(c == 1);
        assert(n * c == n) by (nonlinear_arith)
            requires
                c == 1,
        ;
        assert(2 * a == bound);
        assert(n > 0 ==> bound <= 2 * (n * a)) by (nonlinear_arith)
            requires
                2 * a == bound,
        ;
        assert(n < bound * b) by {
            if value < 0x100_0000 {
                assert(b == 1);
            } else {
                match precision {
                    Precision::Single => {
                        assert(b == 0x200_0000_0000);
                    },
                    Precision::Double => {
                        assert(b == 0x1000);
                    },
                }
            }
        }
        assert(top(n, low) == n * a && bottom(1, low) == 1);
        assert(top(n, high) == n && bottom(1, high) == b);
    }
    round(value as u128, 1, precision, Ghost(low), Ghost(high))
}

/// `a / b` to the nearest number.
pub fn divide(a: Number, b: Number, precision: Precision) -> (out: Number)
    requires
        a.fills(precision),
        b.fills(precision),
        b.significand > 0,
        -0x1_0000_0000_0000_0000_0000_0000 <= a.exponent <= 0x1_0000_0000_0000_0000_0000_0000,
        -0x1_0000_0000_0000_0000_0000_0000 <= b.exponent <= 0x1_0000_0000_0000_0000_0000_0000,
    ensures
        out.parts() == quotient(a.parts(), b.parts(), precision),
        out.fills(precision),
        a.significand == 0 <==> out.significand == 0,
        a.significand > 0 ==> a.exponent - b.exponent - depth(precision) - 1 <= out.exponent
            <= a.exponent - b.exponent - depth(precision) + 2,
{
    let ghost low = -depth(precision) - 1;
    let ghost high = 1 - depth(precision);
    proof {
        lemma2_to64();
        lemma2_to64_rest();
        let (m, k, bound) = (a.significand as nat, b.significand as nat, limit(precision));
        let (x, y, c) = (pow2(above(-low)), pow2(above(-high)), pow2(0));
        assert(c == 1);
        assert(x == bound);
        assert(4 * y == bound);
        assert(m > 0 ==> bound * (k * c) <= 2 * (m * x)) by (nonlinear_arith)
            requires
                m == 0 || bound <= 2 * m,
                k < bound,
                x == bound,
                c == 1,
        ;
        assert(m * y < bound * (k * c)) by (nonlinear_arith)
            requires
                m < bound,
                bound <= 2 * k,
                4 * y == bound,
                bound > 0,
                c == 1,
        ;
        assert(top(m, low) == m * x && bottom(k, low) == k * c);
        assert(top(m, high) == m * y && bottom(k, high) == k * c);
    }
    let ratio = round(
        a.significand as u128,
        b.significand as u128,
        precision,
        Ghost(low),
        Ghost(high),
    );
    if ratio.significand == 0 {
        ratio
    } else {
        Number {
            significand: ratio.significand,
            exponent: ratio.exponent + (a.exponent - b.exponent),
        }
    }
}

/// `a * b` to the nearest number.
pub fn multiply(a: Number, b: Number, precision: Precision) -> (out: Number)
    requires
        a.fills(precision),
        b.fills(precision),
        -0x1_0000_0000_0000_0000_0000_0000 <= a.exponent <= 0x1_0000_0000_0000_0000_0000_0000,
        -0x1_0000_0000_0000_0000_0000_0000 <= b.exponent <= 0x1_0000_0000_0000_0000_0000_0000,
    ensures
        out.parts() == product(a.parts(), b.parts(), precision),
        out.fills(precision),
        out.significand > 0 ==> a.exponent + b.exponent <= out.exponent <= a.exponent + b.exponent
            + depth(precision) + 2,
        out.significand == 0 <==> a.significand == 0 || b.significand == 0,
{
    let (x, y) = (a.significand as u128, b.significand as u128);
    assert(x * y < 0x20_0000_0000_0000 * 0x20_0000_0000_0000) by (nonlinear_arith)
        requires
            x < 0x20_0000_0000_0000,
            y < 0x20_0000_0000_0000,
    ;
    proof {
        lemma2_to64();
        lemma2_to64_rest();
        let (n, c, bound) = ((x * y) as nat, pow2(0), limit(precision));
        let p = pow2(above(depth(precision) + 1));
        assert(p == bound && c == 1);
        assert(n > 0 ==> bound <= 2 * n) by (nonlinear_arith)
            requires
                n == x * y,
                x == 0 || bound <= 2 * x,
        ;
        assert(n < bound * p) by (nonlinear_arith)
            requires
                n == x * y,
                x < bound,
                y < bound,
                p == bound,
        ;
        assert(x * y == 0 <==> x == 0 || y == 0) by (nonlinear_arith);
        assert(n * c == n) by (nonlinear_arith)
            requires
                c == 1,
        ;
        assert(top(n, 0) == n && bottom(1, 0) == 1);
        let high = depth(precision) + 1;
        assert(top(n, high) == n && bottom(1, high) == p);
    }
    let out = round(x * y, 1, precision, Ghost(0), Ghost(depth(precision) + 1));
    if out.significand == 0 {
        out
    } else {
        Number { significand: out.significand, exponent: out.exponent + (a.exponent + b.exponent) }
    }
}

/// `2^k`.
fn power_of_two(k: u128) -> (out: u128)
    requires
        k < 127,
    ensures
        out == pow2(k as nat),
        0 < out <= 0x4000_0000_0000_0000_0000_0000_0000_0000,
{
    proof {
        lemma2_to64();
        lemma_pow2_127();
    }
    let mut out: u128 = 1;
    let mut i: u128 = 0;
    while i < k
        invariant
            i <= k < 127,
            out == pow2(i as nat),
            pow2(127) == 0x8000_0000_0000_0000_0000_0000_0000_0000,
        decreases k - i,
    {
        proof {
            lemma_pow2_unfold((i + 1) as nat);
            if i + 1 < 127 {
                lemma_pow2_strictly_increases((i + 1) as nat, 127);
            }
        }
        out = out * 2;
        i += 1;
    }
    proof {
        lemma_pow2_unfold(127);
        if k < 126 {
            lemma_pow2_strictly_increases(k as nat, 126);
        }
        lemma_pow2_pos(k as nat);
    }
    out
}

/// Adding what is far smaller than the last place changes nothing.
proof fn lemma_negligible(m: nat, r: nat, k: nat, precision: Precision)
    requires
        limit(precision) <= 2 * m < 2 * limit(precision),
        r < 0x20_0000_0000_0000,
        k > 72,
    ensures
        nearest(m * pow2(k) + r, 1, precision) == (m, k as int),
{
    let bound = limit(precision);
    let p = pow2(k);
    lemma2_to64();
    lemma2_to64_rest();
    lemma_pow2_strictly_increases(64, k);
    assert(p > 0x1_0000_0000_0000_0000);
    let n = (m * p + r) as nat;
    assert(bound * p <= 2 * n) by (nonlinear_arith)
        requires
            bound <= 2 * m,
            n == m * p + r,
    ;
    assert(n < bound * p) by (nonlinear_arith)
        requires
            m + 1 <= bound,
            r < p,
            n == m * p + r,
    ;
    let c = pow2(0);
    assert(n * c == n) by (nonlinear_arith)
        requires
            c == 1,
    ;
    assert(top(n, k as int) == n && bottom(1, k as int) == p);
    lemma_exponent(n, 1, bound, k as int, k as int, k as int);
    vstd::arithmetic::div_mod::lemma_fundamental_div_mod_converse(n as int, p as int, m as int, r as int);
    assert(n > 0) by (nonlinear_arith)
        requires
            n == m * p + r,
            m > 0,
            p > 0,
    ;
}

/// The sum of `high` and `low`, whose exponent is no higher.
fn plus_ordered(high: Number, low: Number, precision: Precision) -> (out: Number)
    requires
        high.fills(precision),
        low.fills(precision),
        high.significand > 0,
        low.significand > 0,
        low.exponent <= high.exponent,
        -0x1_0000_0000_0000_0000_0000_0000 <= low.exponent,
        high.exponent <= 0x1_0000_0000_0000_0000_0000_0000,
    ensures
        out.parts() == total(high.parts(), low.parts(), precision),
        out.fills(precision),
        out.significand > 0,
        high.exponent <= out.exponent <= high.exponent + 2,
{
    let apart: u128 = (high.exponent - low.exponent) as u128;
    proof {
        lemma2_to64();
        let (m, c) = (low.significand as nat, pow2(0));
        assert(m * c == m) by (nonlinear_arith)
            requires
                c == 1,
        ;
        assert(in_units(low.parts(), low.exponent as int) == m);
    }
    if apart > 72 {
        proof {
            lemma_negligible(
                high.significand as nat,
                low.significand as nat,
                apart as nat,
                precision,
            );
        }
        return high;
    }
    let p = power_of_two(apart);
    let (m, r) = (high.significand as u128, low.significand as u128);
    proof {
        lemma2_to64_rest();
        if apart < 72 {
            lemma_pow2_strictly_increases(apart as nat, 72);
        }
        lemma_pow2_adds(8, 64);
        assert(pow2(72) == 0x100_0000_0000_0000_0000);
        assert(m * p <= 0x20_0000_0000_0000 * 0x100_0000_0000_0000_0000) by (nonlinear_arith)
            requires
                m < 0x20_0000_0000_0000,
                p <= 0x100_0000_0000_0000_0000,
        ;
        let bound = limit(precision);
        let k = apart as int;
        let n = (m * p + r) as nat;
        let (c, q) = (pow2(0), pow2((k + 1) as nat));
        assert(n * c == n) by (nonlinear_arith)
            requires
                c == 1,
        ;
        lemma_pow2_unfold((k + 1) as nat);
        assert(bound * p <= 2 * n) by (nonlinear_arith)
            requires
                bound <= 2 * m,
                n == m * p + r,
        ;
        assert(n < bound * q) by (nonlinear_arith)
            requires
                m < bound,
                r < bound,
                n == m * p + r,
                q == 2 * p,
                p >= 1,
        ;
        assert(n > 0);
        assert(top(n, k) == n && bottom(1, k) == p);
        assert(top(n, k + 1) == n && bottom(1, k + 1) == q);
    }
    let sum = round(
        m * p + r,
        1,
        precision,
        Ghost(apart as int),
        Ghost(apart + 1),
    );
    Number { significand: sum.significand, exponent: sum.exponent + low.exponent }
}

/// `a + b` to the nearest number.
pub fn plus(a: Number, b: Number, precision: Precision) -> (out: Number)
    requires
        a.fills(precision),
        b.fills(precision),
        -0x1_0000_0000_0000_0000_0000_0000 <= a.exponent <= 0x1_0000_0000_0000_0000_0000_0000,
        -0x1_0000_0000_0000_0000_0000_0000 <= b.exponent <= 0x1_0000_0000_0000_0000_0000_0000,
    ensures
        out.parts() == total(a.parts(), b.parts(), precision),
        out.fills(precision),
        out.significand == 0 <==> a.significand == 0 && b.significand == 0,
        a.significand > 0 || b.significand > 0 ==> out.exponent >= a.exponent || out.exponent
            >= b.exponent,
        out.exponent <= a.exponent + 2 || out.exponent <= b.exponent + 2,
{
    if a.significand == 0 {
        b
    } else if b.significand == 0 {
        a
    } else if b.exponent <= a.exponent {
        plus_ordered(a, b, precision)
    } else {
        let out = plus_ordered(b, a, precision);
        assert(total(b.parts(), a.parts(), precision) == total(a.parts(), b.parts(), precision));
        out
    }
}

/// The larger of `a` and `b` less the smaller, to the nearest number.
pub fn minus(a: Number, b: Number) -> (out: Number)
    requires
        a.fills(Precision::Single),
        b.fills(Precision::Single),
        -23 <= a.exponent <= 42,
        -23 <= b.exponent <= 42,
    ensures
        out.parts() == gap(a.parts(), b.parts(), Precision::Single),
        out.fills(Precision::Single),
        out.significand > 0 ==> -46 <= out.exponent <= 43,
{
    let unit: i128 = if a.exponent <= b.exponent {
        a.exponent
    } else {
        b.exponent
    };
    let up_a: u128 = (a.exponent - unit) as u128;
    let up_b: u128 = (b.exponent - unit) as u128;
    let (p, q) = (power_of_two(up_a), power_of_two(up_b));
    let (m, k) = (a.significand as u128, b.significand as u128);
    proof {
        lemma2_to64();
        lemma2_to64_rest();
        lemma_pow2_adds(1, 64);
        lemma_pow2_strictly_increases(64, 66);
        lemma_pow2_adds(2, 64);
        if up_a < 66 {
            lemma_pow2_strictly_increases(up_a as nat, 66);
        }
        if up_b < 66 {
            lemma_pow2_strictly_increases(up_b as nat, 66);
        }
        assert(p <= 0x4_0000_0000_0000_0000 && q <= 0x4_0000_0000_0000_0000);
        assert(m * p <= 0x100_0000 * 0x4_0000_0000_0000_0000) by (nonlinear_arith)
            requires
                m < 0x100_0000,
                p <= 0x4_0000_0000_0000_0000,
        ;
        assert(k * q <= 0x100_0000 * 0x4_0000_0000_0000_0000) by (nonlinear_arith)
            requires
                k < 0x100_0000,
                q <= 0x4_0000_0000_0000_0000,
        ;
    }
    let (x, y) = (m * p, k * q);
    let ghost up = if up_a >= up_b {
        up_a as int
    } else {
        up_b as int
    };
    proof {
        if up_a < up {
            lemma_pow2_strictly_increases(up_a as nat, up as nat);
        }
        if up_b < up {
            lemma_pow2_strictly_increases(up_b as nat, up as nat);
        }
    }
    let apart: u128 = if x >= y {
        x - y
    } else {
        y - x
    };
    proof {
        let n = apart as nat;
        let c = pow2(0);
        assert(n * c == n) by (nonlinear_arith)
            requires
                c == 1,
        ;
        assert(pow2(23) == 0x80_0000);
        assert(top(n, -23) == n * 0x80_0000 && bottom(1, -23) == 1);
        let r = pow2(up as nat);
        assert(p <= r && q <= r);
        assert(x < 0x100_0000 * r) by (nonlinear_arith)
            requires
                x == m * p,
                m < 0x100_0000,
                0 < p <= r,
        ;
        assert(y < 0x100_0000 * r) by (nonlinear_arith)
            requires
                y == k * q,
                k < 0x100_0000,
                0 < q <= r,
        ;
        assert(top(n, up) == n && bottom(1, up) == r);
    }
    let out = round(apart, 1, Precision::Single, Ghost(-23), Ghost(up));
    if out.significand == 0 {
        out
    } else {
        Number { significand: out.significand, exponent: out.exponent + unit }
    }
}

/// Where a number stands: zero first, then by exponent, then by significand.
pub open spec fn stands_below(a: Number, b: Number) -> bool {
    if a.significand == 0 {
        b.significand > 0
    } else if b.significand == 0 {
        false
    } else if a.exponent != b.exponent {
        a.exponent < b.exponent
    } else {
        a.significand < b.significand
    }
}

/// Numbers that fill their precision order by exponent and then by significand.
pub proof fn lemma_stands_below(a: Number, b: Number, precision: Precision)
    requires
        a.fills(precision),
        b.fills(precision),
    ensures
        below(a.parts(), b.parts()) == stands_below(a, b),
{
    let (x, y) = (a.significand as nat, b.significand as nat);
    let unit = lower(a.parts(), b.parts());
    let (p, q) = (pow2((a.exponent - unit) as nat), pow2((b.exponent - unit) as nat));
    lemma_pow2_pos((a.exponent - unit) as nat);
    lemma_pow2_pos((b.exponent - unit) as nat);
    lemma2_to64();
    assert(x == 0 ==> x * p == 0) by (nonlinear_arith);
    assert(y == 0 ==> y * q == 0) by (nonlinear_arith);
    assert(y > 0 ==> y * q > 0) by (nonlinear_arith)
        requires
            q > 0,
    ;
    if a.exponent == b.exponent {
        assert(p == 1 && q == 1);
        assert(x * p == x && y * q == y) by (nonlinear_arith)
            requires
                p == 1,
                q == 1,
        ;
    } else if a.exponent < b.exponent {
        lemma_pow2_strictly_increases(0, (b.exponent - unit) as nat);
        assert(p == 1);
        assert(x * p == x) by (nonlinear_arith)
            requires
                p == 1,
        ;
        assert(y > 0 ==> x < y * q) by (nonlinear_arith)
            requires
                y == 0 || x < 2 * y,
                q >= 2,
        ;
    } else {
        lemma_pow2_strictly_increases(0, (a.exponent - unit) as nat);
        assert(q == 1);
        assert(y * q == y) by (nonlinear_arith)
            requires
                q == 1,
        ;
        assert(x > 0 ==> y < x * p) by (nonlinear_arith)
            requires
                x == 0 || y < 2 * x,
                p >= 2,
        ;
    }
}

/// Whether `a` stands below `b`.
pub fn less(a: Number, b: Number) -> (out: bool)
    ensures
        out == stands_below(a, b),
{
    if a.significand == 0 {
        b.significand > 0
    } else if b.significand == 0 {
        false
    } else if a.exponent != b.exponent {
        a.exponent < b.exponent
    } else {
        a.significand < b.significand
    }
}

/// The whole part of `a`, or the largest `u64` where that is smaller.
pub fn truncate(a: Number, precision: Precision) -> (out: u64)
    requires
        a.fills(precision),
    ensures
        out == if whole_part(a.parts()) <= u64::MAX {
            whole_part(a.parts())
        } else {
            u64::MAX as nat
        },
{
    let m: u128 = a.significand as u128;
    let ghost e = a.exponent as int;
    proof {
        lemma2_to64();
        lemma2_to64_rest();
        let (c, k) = (pow2(0), m as nat);
        assert(c == 1);
        assert(k * c == k) by (nonlinear_arith)
            requires
                c == 1,
        ;
        assert(bottom(1, -e) == pow2(above(-e)));
        assert(top(k, -e) == k * pow2(above(e)));
    }
    if a.exponent >= 64 {
        proof {
            if e > 64 {
                lemma_pow2_strictly_increases(64, e as nat);
            }
            let (k, p) = (m as nat, pow2(e as nat));
            assert(m > 0);
            assert(k * p >= p) by (nonlinear_arith)
                requires
                    k > 0,
            ;
            assert(bottom(1, -e) == 1 && top(k, -e) == k * p);
            assert((k * p) / 1 == k * p);
            assert(whole_part(a.parts()) == k * p);
        }
        return u64::MAX;
    }
    if a.exponent <= -64 {
        proof {
            if e < -64 {
                lemma_pow2_strictly_increases(64, (-e) as nat);
            }
            vstd::arithmetic::div_mod::lemma_basic_div(m as int, pow2((-e) as nat) as int);
            assert(whole_part(a.parts()) == 0);
        }
        return 0;
    }
    if a.exponent >= 0 {
        let p = power_of_two(a.exponent as u128);
        proof {
            lemma_pow2_strictly_increases(e as nat, 64);
            assert(m * p < 0x20_0000_0000_0000 * 0x1_0000_0000_0000_0000) by (nonlinear_arith)
                requires
                    m < 0x20_0000_0000_0000,
                    p < 0x1_0000_0000_0000_0000,
            ;
            assert(whole_part(a.parts()) == m * p);
        }
        let value: u128 = m * p;
        if value <= u64::MAX as u128 {
            value as u64
        } else {
            u64::MAX
        }
    } else {
        let p = power_of_two((-a.exponent) as u128);
        proof {
            assert(whole_part(a.parts()) == m as nat / p as nat);
            vstd::arithmetic::div_mod::lemma_div_is_ordered_by_denominator(m as int, 1, p as int);
        }
        (m / p) as u64
    }
}

/// `a` to the nearest whole number, halves away from zero, or the largest `u64` where
/// that is smaller.
pub fn nearest_whole(a: Number, precision: Precision) -> (out: u64)
    requires
        a.fills(precision),
    ensures
        out == if half_up(a.parts()) <= u64::MAX {
            half_up(a.parts())
        } else {
            u64::MAX as nat
        },
{
    let m: u128 = a.significand as u128;
    let ghost e = a.exponent as int;
    proof {
        lemma2_to64();
        lemma2_to64_rest();
        let (c, k) = (pow2(0), m as nat);
        assert(c == 1);
        assert(k * c == k) by (nonlinear_arith)
            requires
                c == 1,
        ;
        assert(bottom(1, -e) == pow2(above(-e)));
        assert(top(k, -e) == k * pow2(above(e)));
    }
    if a.exponent >= 0 {
        proof {
            let t = top(m as nat, -e);
            assert(bottom(1, -e) == 1);
            assert((2 * t + 1) / 2 == t && t / 1 == t);
        }
        return truncate(a, precision);
    }
    if a.exponent <= -64 {
        proof {
            if e < -64 {
                lemma_pow2_strictly_increases(64, (-e) as nat);
            }
            let p = pow2((-e) as nat);
            vstd::arithmetic::div_mod::lemma_basic_div((2 * m + p) as int, (2 * p) as int);
        }
        return 0;
    }
    let p = power_of_two((-a.exponent) as u128);
    proof {
        lemma_pow2_strictly_increases((-e) as nat, 64);
        lemma_pow2_pos((-e) as nat);
        assert(half_up(a.parts()) == (2 * m + p) as nat / (2 * p) as nat);
        vstd::arithmetic::div_mod::lemma_div_is_ordered_by_denominator(
            (2 * m + p) as int,
            2,
            (2 * p) as int,
        );
    }
    ((2 * m + p) / (2 * p)) as u64
}

/// `a * scale` to the nearest whole number, ties to even.
fn scale_up(a: Number, scale: u128, precision: Precision) -> (out: u128)
    requires
        a.fills(precision),
        0 < scale <= 100,
        a.exponent <= 66 || (scale == 1 && a.exponent <= 73),
    ensures
        out == scaled(a.parts(), scale as nat),
{
    let m: u128 = a.significand as u128;
    let ghost e = a.exponent as int;
    let ghost n = (m * scale) as nat;
    proof {
        lemma2_to64();
        lemma2_to64_rest();
        assert(m * scale <= 0x20_0000_0000_0000 * scale) by (nonlinear_arith)
            requires
                m < 0x20_0000_0000_0000,
        ;
        let c = pow2(0);
        assert(c == 1);
        assert(n * c == n) by (nonlinear_arith)
            requires
                c == 1,
        ;
        assert(bottom(1, -e) == pow2(above(-e)));
        assert(top(n, -e) == n * pow2(above(e)));
    }
    let base: u128 = m * scale;
    if a.exponent >= 0 {
        let p = power_of_two(a.exponent as u128);
        proof {
            lemma_pow2_adds(9, 64);
            lemma_pow2_adds(2, 64);
            if e < 73 {
                lemma_pow2_strictly_increases(e as nat, 73);
            }
            if e < 66 {
                lemma_pow2_strictly_increases(e as nat, 66);
            }
            assert(base * p <= 0x4000_0000_0000_0000_0000_0000_0000_0000) by (nonlinear_arith)
                requires
                    (base <= 0x20_0000_0000_0000 * 100 && p <= 0x4_0000_0000_0000_0000) || (base
                        <= 0x20_0000_0000_0000 && p <= 0x200_0000_0000_0000_0000),
            ;
            let whole = (base * p) as nat;
            assert(whole / 1 == whole && whole % 1 == 0);
            assert(scaled(a.parts(), scale as nat) == whole);
        }
        base * p
    } else if a.exponent <= -100 {
        proof {
            lemma_pow2_adds(36, 64);
            assert(pow2(100) == 0x10_0000_0000_0000_0000_0000_0000);
            if e < -100 {
                lemma_pow2_strictly_increases(100, (-e) as nat);
            }
            let p = pow2((-e) as nat);
            vstd::arithmetic::div_mod::lemma_basic_div(n as int, p as int);
            vstd::arithmetic::div_mod::lemma_small_mod(n, p);
        }
        0
    } else {
        let p = power_of_two((-a.exponent) as u128);
        proof {
            lemma_pow2_adds(36, 64);
            lemma_pow2_strictly_increases((-e) as nat, 100);
            vstd::arithmetic::div_mod::lemma_div_is_ordered_by_denominator(base as int, 1, p as int);
            assert(base % p < p);
        }
        let quotient: u128 = base / p;
        let rest: u128 = base % p;
        if 2 * rest < p || (2 * rest == p && quotient % 2 == 0) {
            quotient
        } else {
            quotient + 1
        }
    }
}

/// `a` in decimal with `places` digits after the point, ties to even.
pub fn fixed_of(a: Number, places: u8, precision: Precision) -> (out: String)
    requires
        a.fills(precision),
        places <= 2,
        a.exponent <= 66 || (places == 0 && a.exponent <= 73),
    ensures
        out@ == fixed(a.parts(), places as nat),
{
    if places == 0 {
        decimal_of(scale_up(a, 1, precision))
    } else if places == 1 {
        let n = scale_up(a, 10, precision);
        let mut out = decimal_of(n / 10);
        out.push('.');
        out.push(digit_of(n % 10));
        assert(out@ =~= fixed(a.parts(), 1));
        out
    } else {
        let n = scale_up(a, 100, precision);
        let mut out = decimal_of(n / 100);
        out.push('.');
        out.push(digit_of((n / 10) % 10));
        out.push(digit_of(n % 10));
        assert(out@ =~= fixed(a.parts(), 2));
        out
    }
}

/// A ratio that settles at an exponent has its nearest number there.
pub proof fn lemma_nearest_at(n: nat, d: nat, precision: Precision, e: int, m: nat)
    requires
        n > 0,
        d > 0,
        settles(n, d, limit(precision), e),
        even_quotient(top(n, e), bottom(d, e)) == m,
        m < limit(precision),
    ensures
        nearest(n, d, precision) == (m, e),
{
    lemma_exponent(n, d, limit(precision), e, e, e);
}

/// The ratio of two counts that the precision holds is the nearest number to it.
pub proof fn lemma_exact_ratio(n: nat, d: nat, precision: Precision)
    requires
        0 < n < limit(precision),
        0 < d < limit(precision),
    ensures
        quotient(nearest(n, 1, precision), nearest(d, 1, precision), precision) == nearest(
            n,
            d,
            precision,
        ),
{
    lemma_small_is_exact(n, precision);
    lemma_small_is_exact(d, precision);
    let (x, y) = (nearest(n, 1, precision), nearest(d, 1, precision));
    let (k, j) = ((-x.1) as nat, (-y.1) as nat);
    lemma_nearest_shifts(n, d, k, precision);
    lemma_nearest_shifts(n * pow2(k), d, j, precision);
    lemma_nearest_fills(n, d, precision);
}

/// A number over itself is one.
pub proof fn lemma_over_itself(a: (nat, int), precision: Precision)
    requires
        a.0 > 0,
    ensures
        quotient(a, a, precision) == ((limit(precision) / 2) as nat, -depth(precision)),
{
    let (m, e, half) = (a.0, -depth(precision), (limit(precision) / 2) as nat);
    lemma2_to64();
    lemma2_to64_rest();
    assert(pow2(above(-e)) == half && pow2(above(e)) == 1);
    assert(top(m, e) == m * half);
    assert(bottom(m, e) == m) by {
        assert(m * 1 == m) by (nonlinear_arith);
    }
    assert(limit(precision) * m <= 2 * (m * half) && m * half < limit(precision) * m) by (
        nonlinear_arith)
        requires
            2 * half == limit(precision),
            m > 0,
            half > 0,
    ;
    assert(even_quotient(m * half, m) == half) by {
        assert(m * half == half * m) by (nonlinear_arith);
        vstd::arithmetic::div_mod::lemma_fundamental_div_mod_converse(
            (m * half) as int,
            m as int,
            half as int,
            0,
        );
    }
    lemma_nearest_at(m, m, precision, e, half);
}

/// How a ratio stands to one half and to one and a half, in single precision: on counts
/// that it tells apart, as the ratio itself does.
pub proof fn law_marks_part_exact_ratios(n: nat, d: nat)
    requires
        n < 0x100_0000,
        0 < d <= 0x40_0000,
    ensures
        ({
            let ratio = quotient(
                nearest(n, 1, Precision::Single),
                nearest(d, 1, Precision::Single),
                Precision::Single,
            );
            &&& below((0xc0_0000, -23), ratio) <==> 2 * n > 3 * d
            &&& below((0x80_0000, -24), ratio) <==> 2 * n > d
        }),
{
    let ratio = quotient(
        nearest(n, 1, Precision::Single),
        nearest(d, 1, Precision::Single),
        Precision::Single,
    );
    let (half, heavy) = ((0x80_0000nat, -24int), (0xc0_0000nat, -23int));
    lemma2_to64();
    lemma2_to64_rest();
    if n == 0 {
        lemma_zero_is_least(heavy);
        lemma_zero_is_least(half);
        return;
    }
    lemma_exact_ratio(n, d, Precision::Single);
    assert(top(3, -23) == 3 * 0x80_0000 && bottom(2, -23) == 2);
    assert(top(1, -24) == 0x100_0000 && bottom(2, -24) == 2);
    lemma_nearest_at(3, 2, Precision::Single, -23, 0xc0_0000);
    lemma_nearest_at(1, 2, Precision::Single, -24, 0x80_0000);
    let (past_heavy, past_half) = ((0x600_0005nat, 0x400_0000nat), (0x400_0005nat, 0x800_0000nat));
    assert(top(0x600_0005, -23) == 0x600_0005 * 0x80_0000 && bottom(0x400_0000, -23)
        == 0x400_0000);
    assert(top(0x400_0005, -24) == 0x400_0005 * 0x100_0000 && bottom(0x800_0000, -24)
        == 0x800_0000);
    lemma_nearest_at(0x600_0005, 0x400_0000, Precision::Single, -23, 0xc0_0001);
    lemma_nearest_at(0x400_0005, 0x800_0000, Precision::Single, -24, 0x80_0001);
    if 2 * n <= 3 * d {
        law_rounding_keeps_the_order(n, d, 3, 2, Precision::Single);
    } else {
        law_rounding_keeps_the_order(past_heavy.0, past_heavy.1, n, d, Precision::Single);
        let above = (0xc0_0001nat, -23int);
        lemma_below_alike(0xc0_0000, 0xc0_0001, -23);
        lemma_below_is_an_order(heavy, above, ratio);
    }
    if 2 * n <= d {
        law_rounding_keeps_the_order(n, d, 1, 2, Precision::Single);
    } else {
        law_rounding_keeps_the_order(past_half.0, past_half.1, n, d, Precision::Single);
        let above = (0x80_0001nat, -24int);
        lemma_below_alike(0x80_0000, 0x80_0001, -24);
        lemma_below_is_an_order(half, above, ratio);
    }
}

/// How a ratio of any two counts stands to one and to two: no more over no less is at most
/// one, and twice as much at least two.
pub proof fn law_marks_part_all_ratios(n: nat, d: nat, precision: Precision)
    requires
        d > 0,
    ensures
        ({
            let ratio = quotient(nearest(n, 1, precision), nearest(d, 1, precision), precision);
            let half = (limit(precision) / 2) as nat;
            &&& n <= d ==> !below((half, -depth(precision)), ratio)
            &&& n >= d ==> !below(ratio, (half, -depth(precision)))
            &&& n >= 2 * d ==> !below(ratio, (half, 1 - depth(precision)))
            &&& 4 * n <= d ==> !below((half, -2 - depth(precision)), ratio)
        }),
{
    let (x, y) = (nearest(n, 1, precision), nearest(d, 1, precision));
    lemma_nearest_fills(d, 1, precision);
    lemma_over_itself(y, precision);
    lemma2_to64();
    if n <= d {
        law_rounding_keeps_the_order(n, 1, d, 1, precision);
        lemma_below_is_an_order(y, y, y);
        lemma_quotient_grows(x, y, y, y, precision);
    }
    if n >= d {
        law_rounding_keeps_the_order(d, 1, n, 1, precision);
        lemma_below_is_an_order(y, y, y);
        lemma_quotient_grows(y, y, x, y, precision);
    }
    if n >= 2 * d {
        lemma_nearest_shifts(d, 1, 1, precision);
        assert(d * pow2(1) == 2 * d);
        law_rounding_keeps_the_order(2 * d, 1, n, 1, precision);
        lemma_below_is_an_order(y, y, y);
        lemma_quotient_grows((y.0, y.1 + 1), y, x, y, precision);
    }
    if 4 * n <= d {
        if n == 0 {
            lemma_zero_is_least(((limit(precision) / 2) as nat, -2 - depth(precision)));
        } else {
            lemma_nearest_shifts(n, 1, 2, precision);
            assert(n * pow2(2) == 4 * n);
            law_rounding_keeps_the_order(4 * n, 1, d, 1, precision);
            lemma_nearest_fills(n, 1, precision);
            let four = (x.0, x.1 + 2);
            lemma_below_is_an_order(y, y, y);
            lemma_quotient_grows(four, y, y, y, precision);
            let (a, b) = (quotient(four, y, precision), quotient(x, y, precision));
            lemma_nearest_fills(x.0, y.0, precision);
            assert(shifted(b, 2) == a);
            lemma_shifting_keeps_the_order(
                ((limit(precision) / 2) as nat, -2 - depth(precision)),
                b,
                2,
            );
        }
    }
}

/// A significand that fills its precision is its own nearest number.
pub proof fn lemma_filled_is_itself(m: nat, precision: Precision)
    requires
        limit(precision) <= 2 * m,
        m < limit(precision),
    ensures
        nearest(m, 1, precision) == (m, 0int),
{
    lemma2_to64();
    assert(top(m, 0) == m * 1 && bottom(1, 0) == 1);
    assert(m / 1 == m && m % 1 == 0);
    lemma_nearest_at(m, 1, precision, 0, m);
}

/// A number times a power of two is the number shifted.
pub proof fn lemma_times_a_power(a: (nat, int), k: int, precision: Precision)
    requires
        a.0 == 0 ==> a.1 == 0,
        a.0 > 0 ==> limit(precision) <= 2 * a.0 && a.0 < limit(precision),
    ensures
        product(a, ((limit(precision) / 2) as nat, k - depth(precision)), precision) == shifted(a, k),
        product(((limit(precision) / 2) as nat, k - depth(precision)), a, precision) == shifted(a, k),
{
    let half = (limit(precision) / 2) as nat;
    lemma2_to64();
    lemma2_to64_rest();
    assert(pow2(depth(precision) as nat) == half);
    assert(a.0 * half == half * a.0) by (nonlinear_arith);
    if a.0 == 0 {
        assert(0 * half == 0) by (nonlinear_arith);
    } else {
        lemma_filled_is_itself(a.0, precision);
        lemma_nearest_shifts(a.0, 1, depth(precision) as nat, precision);
    }
}

/// A number over itself shifted is a power of two.
pub proof fn lemma_over_itself_shifted(a: (nat, int), k: int, precision: Precision)
    requires
        a.0 > 0,
    ensures
        quotient(a, (a.0, a.1 + k), precision) == (
            (limit(precision) / 2) as nat,
            -k - depth(precision),
        ),
        quotient((a.0, a.1 - k), a, precision) == (
            (limit(precision) / 2) as nat,
            -k - depth(precision),
        ),
{
    lemma_over_itself(a, precision);
}

/// Counts add up exactly as long as the precision holds their sum, in any unit.
pub proof fn lemma_counts_add_up(n: nat, m: nat, k: int, precision: Precision)
    requires
        n + m < limit(precision),
    ensures
        total(
            shifted(nearest(n, 1, precision), k),
            shifted(nearest(m, 1, precision), k),
            precision,
        ) == shifted(nearest(n + m, 1, precision), k),
{
    if n > 0 {
        lemma_small_is_exact(n, precision);
    }
    if m > 0 {
        lemma_small_is_exact(m, precision);
    }
    if n > 0 && m > 0 {
        let (x, y) = (nearest(n, 1, precision), nearest(m, 1, precision));
        let (a, b) = (shifted(x, k), shifted(y, k));
        let (unit, low) = (lower(a, b), lower(x, y));
        assert(unit == low + k);
        let (p, q) = ((-x.1) as nat, (-y.1) as nat);
        let (i, j) = ((x.1 - low) as nat, (y.1 - low) as nat);
        let r = (-low) as nat;
        lemma_pow2_adds(p, i);
        lemma_pow2_adds(q, j);
        assert(in_units(a, unit) == (n * pow2(p)) * pow2(i));
        assert(in_units(b, unit) == (m * pow2(q)) * pow2(j));
        let (pp, qq, ii, jj, w) = (pow2(p), pow2(q), pow2(i), pow2(j), pow2(r));
        assert((n * pp) * ii + (m * qq) * jj == (n + m) * w) by (nonlinear_arith)
            requires
                pp * ii == w,
                qq * jj == w,
        ;
        lemma_nearest_shifts(n + m, 1, r, precision);
        lemma_nearest_fills(n + m, 1, precision);
    }
}

/// A count that the precision holds, a power of two down, has the whole part that whole
/// numbers have.
pub proof fn lemma_whole_part_of_a_count(n: nat, k: nat, precision: Precision)
    requires
        n < limit(precision),
    ensures
        whole_part(shifted(nearest(n, 1, precision), -k)) == n / pow2(k),
{
    lemma2_to64();
    lemma_pow2_pos(k);
    let p = pow2(k);
    if n == 0 {
        assert(top(0, 0) == 0 * 1 && bottom(1, 0) == 1);
        vstd::arithmetic::div_mod::lemma_div_basics(p as int);
    } else {
        lemma_small_is_exact(n, precision);
        let (m, e) = nearest(n, 1, precision);
        let j = (-e) as nat;
        lemma_pow2_adds(j, k);
        lemma_pow2_pos(j);
        let q = pow2(j);
        assert(above(-(k - e)) == 0 && above(k - e) == j + k);
        assert(top(m, k - e) == m * 1);
        assert(bottom(1, k - e) == 1 * pow2(j + k));
        assert(m == n * q);
        vstd::arithmetic::div_mod::lemma_div_denominator((n * q) as int, q as int, p as int);
        vstd::arithmetic::div_mod::lemma_div_by_multiple(n as int, q as int);
    }
}

/// A whole number that the precision holds is read as it is.
pub proof fn law_whole_numbers_read_as_they_are(n: nat, precision: Precision)
    requires
        n < limit(precision),
    ensures
        fixed(nearest(n, 1, precision), 0) == text::decimal(n),
{
    lemma_scaled_count(n, 1, 0, precision);
    assert(n * 1 == n) by (nonlinear_arith);
    assert(n / 1 == n && n % 1 == 0);
    lemma2_to64();
}

/// A count that the precision holds, a power of two down and times a scale, is the nearest
/// whole number to that.
pub proof fn lemma_scaled_count(n: nat, scale: nat, k: nat, precision: Precision)
    requires
        n < limit(precision),
    ensures
        scaled(shifted(nearest(n, 1, precision), -k), scale) == even_quotient(n * scale, pow2(k)),
{
    lemma2_to64();
    lemma_pow2_pos(k);
    let p = pow2(k);
    if n == 0 {
        assert(0 * scale == 0) by (nonlinear_arith);
        assert(top(0, 0) == 0 * 1 && bottom(1, 0) == 1);
        vstd::arithmetic::div_mod::lemma_div_basics(p as int);
        vstd::arithmetic::div_mod::lemma_small_mod(0, p);
    } else {
        lemma_small_is_exact(n, precision);
        let (m, e) = nearest(n, 1, precision);
        let j = (-e) as nat;
        lemma_pow2_adds(j, k);
        lemma_pow2_pos(j);
        let q = pow2(j);
        assert(above(-(k - e)) == 0 && above(k - e) == j + k);
        assert(top(m * scale, k - e) == (m * scale) * 1);
        assert(bottom(1, k - e) == 1 * pow2(j + k));
        let (t, b) = (m * scale, q * p);
        assert(t * p == (n * scale) * b) by (nonlinear_arith)
            requires
                t == m * scale,
                m == n * q,
                b == q * p,
        ;
        assert(b > 0) by (nonlinear_arith)
            requires
                b == q * p,
                q > 0,
                p > 0,
        ;
        lemma_even_quotient_grows(t, b, n * scale, p);
        lemma_even_quotient_grows(n * scale, p, t, b);
    }
}

/// The nearest whole number to a ratio is within half of it.
pub proof fn lemma_even_quotient_is_near(n: nat, d: nat)
    requires
        d > 0,
    ensures
        within_half((even_quotient(n, d) * d) as int, n as int, d as int),
{
    let (q, r) = (n / d, n % d);
    vstd::arithmetic::div_mod::lemma_fundamental_div_mod(n as int, d as int);
    assert(q * d == d * q && (q + 1) * d == d * q + d) by (nonlinear_arith);
}

/// A larger number times another has no smaller product.
pub proof fn lemma_product_grows(a: (nat, int), b: (nat, int), c: (nat, int), precision: Precision)
    requires
        !below(b, a),
    ensures
        !below(product(b, c, precision), product(a, c, precision)),
{
    let u = lower(b, a);
    let (x, y) = (in_units(a, u), in_units(b, u));
    let (i, j) = ((a.1 - u) as nat, (b.1 - u) as nat);
    let (p, q) = (pow2(i), pow2(j));
    lemma_nearest_shifts(a.0 * c.0, 1, i, precision);
    lemma_nearest_shifts(b.0 * c.0, 1, j, precision);
    assert((a.0 * c.0) * p == x * c.0) by (nonlinear_arith)
        requires
            x == a.0 * p,
    ;
    assert((b.0 * c.0) * q == y * c.0) by (nonlinear_arith)
        requires
            y == b.0 * q,
    ;
    assert((x * c.0) * 1 <= (y * c.0) * 1) by (nonlinear_arith)
        requires
            x <= y,
    ;
    let (m, n) = (x * c.0, y * c.0);
    law_rounding_keeps_the_order(m, 1, n, 1, precision);
    if m > 0 {
        lemma_nearest_fills(m, 1, precision);
    }
    if n > 0 {
        lemma_nearest_fills(n, 1, precision);
    }
    lemma_shifting_keeps_the_order(
        nearest(n, 1, precision),
        nearest(m, 1, precision),
        u + c.1,
    );
    if (a.0 * c.0) > 0 {
        lemma_nearest_fills(a.0 * c.0, 1, precision);
    }
    if (b.0 * c.0) > 0 {
        lemma_nearest_fills(b.0 * c.0, 1, precision);
    }
}

/// One is the nearest number to one.
pub proof fn lemma_one(precision: Precision)
    ensures
        nearest(1, 1, precision) == ((limit(precision) / 2) as nat, -depth(precision)),
{
    lemma_over_itself((1, 0), precision);
}

/// A count that the precision holds over a power of two is the count shifted.
pub proof fn lemma_over_a_power(n: nat, k: nat, precision: Precision)
    ensures
        quotient(
            nearest(n, 1, precision),
            nearest(pow2(k), 1, precision),
            precision,
        ) == shifted(nearest(n, 1, precision), -k),
{
    let half = (limit(precision) / 2) as nat;
    lemma2_to64();
    lemma2_to64_rest();
    lemma_one(precision);
    lemma_nearest_shifts(1, 1, k, precision);
    assert(1 * pow2(k) == pow2(k));
    assert(pow2(depth(precision) as nat) == half);
    let x = nearest(n, 1, precision);
    if n > 0 {
        lemma_nearest_fills(n, 1, precision);
        lemma_filled_is_itself(x.0, precision);
        lemma_nearest_shifts(x.0, 1, depth(precision) as nat, precision);
        assert(1 * half == half);
    }
}

/// Of two numbers with one exponent the one with the smaller significand is the smaller.
proof fn lemma_below_alike(m: nat, n: nat, e: int)
    ensures
        below((m, e), (n, e)) <==> m < n,
{
    lemma2_to64();
    assert(in_units((m, e), e) == m * 1);
    assert(in_units((n, e), e) == n * 1);
}

/// A quarter, a half, one, one and a half and two, in single precision, stand in that order.
pub proof fn lemma_marks_stand_in_order()
    ensures
        below((0x80_0000, -25), (0x80_0000, -24)),
        below((0x80_0000, -24), (0x80_0000, -23)),
        below((0x80_0000, -23), (0xc0_0000, -23)),
        below((0xc0_0000, -23), (0x80_0000, -22)),
        below((0x80_0000, -24), (0xc0_0000, -23)),
{
    let (quarter, half, one) = ((0x80_0000nat, -25int), (0x80_0000nat, -24int), (0x80_0000nat, -23int));
    let (heavy, two) = ((0xc0_0000nat, -23int), (0x80_0000nat, -22int));
    lemma_below_alike(0x80_0000, 0xc0_0000, -23);
    lemma_below_is_an_order(quarter, quarter, quarter);
    lemma_below_is_an_order(half, half, half);
    lemma_below_is_an_order(two, two, two);
    lemma_double_is_above(quarter, half);
    lemma_below_is_an_order(one, one, one);
    lemma_double_is_above(half, one);
    lemma2_to64();
    assert(in_units(heavy, -23) == 0xc0_0000nat * 1);
    assert(in_units(two, -23) == 0x80_0000nat * 2);
    lemma_below_is_an_order(half, one, heavy);
}

} // verus!
