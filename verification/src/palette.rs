//! Intensity to color: a five-stop ramp from transparent blue through cyan,
//! green and yellow to opaque red, with alpha rising along the ramp, and the
//! 256-entry lookup table sampled from it. Painting a pixel is then a table
//! lookup rather than a gradient evaluated per pixel per frame.
//!
//! A ramp position `t` is taken as an exact fraction `num / den`, and each
//! channel is the linear interpolation between the two stops around `t`,
//! rounded to the nearest integer with halves rounded up.
use vstd::prelude::*;
use vstd::arithmetic::div_mod::{lemma_fundamental_div_mod, lemma_mod_bound};

verus! {

/// Number of entries in the precomputed color table.
pub const PALETTE_SIZE: usize = 256;

/// Number of color stops on the ramp.
pub const STOP_COUNT: usize = 5;

/// Position of stop `j` on the ramp, in hundredths of the unit interval.
pub open spec fn stop_percent(j: int) -> int {
    if j <= 0 {
        0
    } else if j == 1 {
        25
    } else if j == 2 {
        50
    } else if j == 3 {
        75
    } else {
        100
    }
}

/// RGBA color of stop `j`: transparent blue, cyan, green, yellow, opaque red.
pub open spec fn stop_rgba(j: int) -> Seq<int> {
    if j <= 0 {
        seq![0, 0, 255, 0]
    } else if j == 1 {
        seq![0, 255, 255, 90]
    } else if j == 2 {
        seq![0, 255, 0, 150]
    } else if j == 3 {
        seq![255, 255, 0, 200]
    } else {
        seq![255, 0, 0, 255]
    }
}

/// Channel `c` (0 red, 1 green, 2 blue, 3 alpha) of stop `j`.
pub open spec fn stop_channel(j: int, c: int) -> int {
    stop_rgba(j)[c]
}

/// The fraction `num / den` limited to the unit interval, as a numerator
/// over a positive denominator.
pub open spec fn clamp_unit(num: int, den: int) -> (int, int) {
    if num <= 0 {
        (0, 1)
    } else if num >= den {
        (1, 1)
    } else {
        (num, den)
    }
}

/// For `0 <= n / d <= 1`: the ramp segment `[stop j, stop j + 1]` used for
/// `n / d`, the first one whose upper stop is not below `n / d`.
pub open spec fn segment(n: int, d: int) -> int {
    if 100 * n <= stop_percent(1) * d {
        0
    } else if 100 * n <= stop_percent(2) * d {
        1
    } else if 100 * n <= stop_percent(3) * d {
        2
    } else {
        3
    }
}

/// `n / d` rounded to the nearest integer, halves rounded up
/// (the floor of `n / d + 1/2`), for `d > 0`.
pub open spec fn round_half_up(n: int, d: int) -> int {
    (2 * n + d) / (2 * d)
}

/// Channel `c` of the ramp color at `t = num / den` (for `den > 0`): `t` is
/// clamped to `[0, 1]`, then the channel is `a + (b - a) * (t - t0) / (t1 - t0)`
/// for the stops `t0 -> a` and `t1 -> b` of the segment holding `t`, rounded
/// half up. All quantities are scaled by `100 * d`, so that they are integers.
pub open spec fn ramp_channel(num: int, den: int, c: int) -> int {
    let (n, d) = clamp_unit(num, den);
    let j = segment(n, d);
    let width = (stop_percent(j + 1) - stop_percent(j)) * d;
    let offset = 100 * n - stop_percent(j) * d;
    let a = stop_channel(j, c);
    let b = stop_channel(j + 1, c);
    round_half_up(a * width + (b - a) * offset, width)
}

/// Position (in hundredths) and RGBA color of stop `j`.
fn stop(j: usize) -> (s: (u64, [u8; 4]))
    requires
        j < STOP_COUNT,
    ensures
        s.0 == stop_percent(j as int),
        forall|c: int| 0 <= c < 4 ==> s.1[c] == stop_channel(j as int, c),
{
    let s: (u64, [u8; 4]) = if j == 0 {
        (0, [0, 0, 255, 0])
    } else if j == 1 {
        (25, [0, 255, 255, 90])
    } else if j == 2 {
        (50, [0, 255, 0, 150])
    } else if j == 3 {
        (75, [255, 255, 0, 200])
    } else {
        (100, [255, 0, 0, 255])
    };
    s
}

/// `2 * d * q <= 2 * n + d < 2 * d * (q + 1)` for `q = round_half_up(n, d)`.
proof fn lemma_round_brackets(n: int, d: int)
    requires
        d > 0,
    ensures
        2 * d * round_half_up(n, d) <= 2 * n + d,
        2 * n + d < 2 * d * round_half_up(n, d) + 2 * d,
{
    lemma_fundamental_div_mod(2 * n + d, 2 * d);
    lemma_mod_bound(2 * n + d, 2 * d);
}

/// Rounding a value that lies between `lo` and `hi` gives a value between them.
proof fn lemma_round_between(n: int, d: int, lo: int, hi: int)
    requires
        d > 0,
        lo * d <= n <= hi * d,
    ensures
        lo <= round_half_up(n, d) <= hi,
{
    lemma_round_brackets(n, d);
    let q = round_half_up(n, d);
    assert(q <= hi) by (nonlinear_arith)
        requires
            d > 0,
            n <= hi * d,
            2 * d * q <= 2 * n + d,
    ;
    assert(lo <= q) by (nonlinear_arith)
        requires
            d > 0,
            lo * d <= n,
            2 * n + d < 2 * d * q + 2 * d,
    ;
}

/// Rounding is monotone: `n1 / d1 <= n2 / d2` gives
/// `round_half_up(n1, d1) <= round_half_up(n2, d2)`.
proof fn lemma_round_monotone(n1: int, d1: int, n2: int, d2: int)
    requires
        d1 > 0,
        d2 > 0,
        n1 * d2 <= n2 * d1,
    ensures
        round_half_up(n1, d1) <= round_half_up(n2, d2),
{
    lemma_round_brackets(n1, d1);
    lemma_round_brackets(n2, d2);
    let q1 = round_half_up(n1, d1);
    let q2 = round_half_up(n2, d2);
    if q1 > q2 {
        // 2 d1 d2 (q2 + 1) <= d2 (2 n1 + d1) <= d1 (2 n2 + d2) < 2 d1 d2 (q2 + 1)
        assert(2 * d1 * d2 * (q2 + 1) <= d2 * (2 * n1 + d1)) by (nonlinear_arith)
            requires
                d2 > 0,
                q1 >= q2 + 1,
                d1 > 0,
                2 * d1 * q1 <= 2 * n1 + d1,
        ;
        assert(d2 * (2 * n1 + d1) <= d1 * (2 * n2 + d2)) by (nonlinear_arith)
            requires
                n1 * d2 <= n2 * d1,
        ;
        assert(d1 * (2 * n2 + d2) < 2 * d1 * d2 * (q2 + 1)) by (nonlinear_arith)
            requires
                d1 > 0,
                2 * n2 + d2 < 2 * d2 * q2 + 2 * d2,
        ;
    }
}

/// The clamped fraction lies in the unit interval with a positive denominator.
proof fn lemma_clamp_unit_range(num: int, den: int)
    requires
        den > 0,
    ensures
        clamp_unit(num, den).1 > 0,
        0 <= clamp_unit(num, den).0 <= clamp_unit(num, den).1,
{
}

/// For `0 <= n / d <= 1` the position lies within its segment:
/// `0 <= offset <= width`, and the width is positive.
proof fn lemma_segment_bounds(n: int, d: int)
    requires
        d > 0,
        0 <= n <= d,
    ensures
        0 <= segment(n, d) < 4,
        stop_percent(segment(n, d)) * d <= 100 * n <= stop_percent(segment(n, d) + 1) * d,
        stop_percent(segment(n, d)) < stop_percent(segment(n, d) + 1),
{
}

/// Clamping to the unit interval keeps the order of two fractions.
proof fn lemma_clamp_monotone(num1: int, den1: int, num2: int, den2: int)
    requires
        den1 > 0,
        den2 > 0,
        num1 * den2 <= num2 * den1,
    ensures
        clamp_unit(num1, den1).0 * clamp_unit(num2, den2).1 <= clamp_unit(num2, den2).0
            * clamp_unit(num1, den1).1,
{
    let (n1, d1) = clamp_unit(num1, den1);
    let (n2, d2) = clamp_unit(num2, den2);
    if num2 <= 0 {
        assert(num1 <= 0) by (nonlinear_arith)
            requires
                num1 * den2 <= num2 * den1,
                num2 <= 0,
                den1 > 0,
                den2 > 0,
        ;
    } else if num1 >= den1 {
        assert(num2 >= den2) by (nonlinear_arith)
            requires
                num1 * den2 <= num2 * den1,
                num1 >= den1,
                den1 > 0,
                den2 > 0,
        ;
    } else if num1 <= 0 {
    } else if num2 >= den2 {
        assert(n1 == num1 && d1 == den1 && n2 == 1 && d2 == 1);
        assert(n1 * d2 <= n2 * d1) by (nonlinear_arith)
            requires
                n1 < d1,
                n2 == 1,
                d2 == 1,
        ;
    } else {
    }
}

/// The segment index does not decrease as the position grows.
proof fn lemma_segment_monotone(n1: int, d1: int, n2: int, d2: int)
    requires
        d1 > 0,
        d2 > 0,
        0 <= n1 <= d1,
        0 <= n2 <= d2,
        n1 * d2 <= n2 * d1,
    ensures
        segment(n1, d1) <= segment(n2, d2),
{
    let j1 = segment(n1, d1);
    let j2 = segment(n2, d2);
    if j2 < j1 {
        let p = stop_percent(j2 + 1);
        assert(100 * n2 <= p * d2);
        assert(100 * n1 > p * d1);
        assert(false) by (nonlinear_arith)
            requires
                100 * n2 <= p * d2,
                100 * n1 > p * d1,
                n1 * d2 <= n2 * d1,
                d1 > 0,
                d2 > 0,
        ;
    }
}

/// Within one segment, with a non-decreasing channel, the exact
/// (unrounded) channel value `v / w` does not decrease as the position grows.
proof fn lemma_same_segment_value_monotone(
    n1: int,
    d1: int,
    n2: int,
    d2: int,
    lo: int,
    hi: int,
    a: int,
    b: int,
)
    requires
        d1 > 0,
        d2 > 0,
        n1 * d2 <= n2 * d1,
        lo < hi,
        a <= b,
    ensures
        (a * ((hi - lo) * d1) + (b - a) * (100 * n1 - lo * d1)) * ((hi - lo) * d2) <= (a * ((hi
            - lo) * d2) + (b - a) * (100 * n2 - lo * d2)) * ((hi - lo) * d1),
{
    let s = hi - lo;
    let k = a * s - (b - a) * lo;
    let c = 100 * (b - a);
    lemma_affine_form(n1, d1, s, lo, a, b);
    lemma_affine_form(n2, d2, s, lo, a, b);
    lemma_cross_product(k, c, n1, d1, s, d2);
    lemma_cross_product(k, c, n2, d2, s, d1);
    assert(s * c * (n1 * d2) <= s * c * (n2 * d1)) by (nonlinear_arith)
        requires
            s > 0,
            c >= 0,
            n1 * d2 <= n2 * d1,
    ;
    assert(s * k * (d1 * d2) == s * k * (d2 * d1)) by (nonlinear_arith);
}

/// `a * (s * d) + (b - a) * (100 * n - lo * d) == k * d + c * n`
/// for `k = a * s - (b - a) * lo` and `c = 100 * (b - a)`.
proof fn lemma_affine_form(n: int, d: int, s: int, lo: int, a: int, b: int)
    ensures
        a * (s * d) + (b - a) * (100 * n - lo * d) == (a * s - (b - a) * lo) * d + 100 * (b
            - a) * n,
{
    vstd::arithmetic::mul::lemma_mul_is_distributive_sub(b - a, 100 * n, lo * d);
    vstd::arithmetic::mul::lemma_mul_is_associative(a, s, d);
    vstd::arithmetic::mul::lemma_mul_is_associative(b - a, lo, d);
    vstd::arithmetic::mul::lemma_mul_is_associative(b - a, 100, n);
    vstd::arithmetic::mul::lemma_mul_is_commutative(b - a, 100);
    vstd::arithmetic::mul::lemma_mul_is_distributive_sub_other_way(d, a * s, (b - a) * lo);
}

/// `(k * d + c * n) * (s * e) == s * k * (d * e) + s * c * (n * e)`.
proof fn lemma_cross_product(k: int, c: int, n: int, d: int, s: int, e: int)
    ensures
        (k * d + c * n) * (s * e) == s * k * (d * e) + s * c * (n * e),
{
    vstd::arithmetic::mul::lemma_mul_is_distributive_add_other_way(s * e, k * d, c * n);
    assert((k * d) * (s * e) == s * k * (d * e)) by (nonlinear_arith);
    assert((c * n) * (s * e) == s * c * (n * e)) by (nonlinear_arith);
}

/// Alpha rises with the ramp position: for `t1 = num1 / den1` and
/// `t2 = num2 / den2` with `t1 <= t2`, the alpha of the color at `t1` is at
/// most the alpha of the color at `t2`.
pub proof fn lemma_ramp_alpha_monotone(num1: int, den1: int, num2: int, den2: int)
    requires
        den1 > 0,
        den2 > 0,
        num1 * den2 <= num2 * den1,
    ensures
        ramp_channel(num1, den1, 3) <= ramp_channel(num2, den2, 3),
{
    let (n1, d1) = clamp_unit(num1, den1);
    let (n2, d2) = clamp_unit(num2, den2);
    lemma_clamp_unit_range(num1, den1);
    lemma_clamp_unit_range(num2, den2);
    lemma_clamp_monotone(num1, den1, num2, den2);
    lemma_segment_bounds(n1, d1);
    lemma_segment_bounds(n2, d2);
    lemma_segment_monotone(n1, d1, n2, d2);
    let j1 = segment(n1, d1);
    let j2 = segment(n2, d2);
    let w1 = (stop_percent(j1 + 1) - stop_percent(j1)) * d1;
    let m1 = 100 * n1 - stop_percent(j1) * d1;
    let a1 = stop_channel(j1, 3);
    let b1 = stop_channel(j1 + 1, 3);
    let v1 = a1 * w1 + (b1 - a1) * m1;
    let w2 = (stop_percent(j2 + 1) - stop_percent(j2)) * d2;
    let m2 = 100 * n2 - stop_percent(j2) * d2;
    let a2 = stop_channel(j2, 3);
    let b2 = stop_channel(j2 + 1, 3);
    let v2 = a2 * w2 + (b2 - a2) * m2;
    assert(w1 > 0 && w2 > 0) by (nonlinear_arith)
        requires
            w1 == (stop_percent(j1 + 1) - stop_percent(j1)) * d1,
            w2 == (stop_percent(j2 + 1) - stop_percent(j2)) * d2,
            stop_percent(j1) < stop_percent(j1 + 1),
            stop_percent(j2) < stop_percent(j2 + 1),
            d1 > 0,
            d2 > 0,
    ;
    assert(0 <= m1 <= w1 && 0 <= m2 <= w2);
    if j1 == j2 {
        lemma_same_segment_value_monotone(
            n1,
            d1,
            n2,
            d2,
            stop_percent(j1),
            stop_percent(j1 + 1),
            a1,
            b1,
        );
    } else {
        // the first value is at most the upper stop of its segment, the
        // second at least the lower stop of its segment, and alpha does not
        // decrease from the one stop to the other
        assert(b1 <= a2);
        assert(v1 <= b1 * w1) by (nonlinear_arith)
            requires
                v1 == a1 * w1 + (b1 - a1) * m1,
                m1 <= w1,
                a1 <= b1,
        ;
        assert(a2 * w2 <= v2) by (nonlinear_arith)
            requires
                v2 == a2 * w2 + (b2 - a2) * m2,
                0 <= m2,
                a2 <= b2,
        ;
        assert(v1 * w2 <= v2 * w1) by (nonlinear_arith)
            requires
                v1 <= b1 * w1,
                a2 * w2 <= v2,
                b1 <= a2,
                w1 > 0,
                w2 > 0,
        ;
    }
    lemma_round_monotone(v1, w1, v2, w2);
}

/// Clamping: any position at or below 0 gives the color at 0, and any
/// position at or above 1 the color at 1.
pub proof fn lemma_ramp_clamps(num: int, den: int, c: int)
    requires
        den > 0,
    ensures
        num <= 0 ==> ramp_channel(num, den, c) == ramp_channel(0, 1, c),
        num >= den ==> ramp_channel(num, den, c) == ramp_channel(1, 1, c),
{
}

/// The ramp passes exactly through each stop: at the position of stop `j`
/// (written as any fraction `(p * k) / (100 * k)`), every channel equals
/// that stop's channel.
pub proof fn lemma_ramp_hits_stops(j: int, k: int, c: int)
    requires
        0 <= j < 5,
        k > 0,
    ensures
        ramp_channel(stop_percent(j) * k, 100 * k, c) == stop_channel(j, c),
{
    let num = stop_percent(j) * k;
    let den = 100 * k;
    let (n, d) = clamp_unit(num, den);
    if j == 0 {
        assert(num == 0);
        assert(n == 0 && d == 1);
        let a = stop_channel(0, c);
        let b = stop_channel(1, c);
        assert(a * (25 * 1) + (b - a) * (100 * 0 - 0 * 1) == a * 25) by (nonlinear_arith);
        lemma_round_between(a * 25, 25, a, a);
        assert(ramp_channel(num, den, c) == round_half_up(a * 25, 25));
    } else if j == 4 {
        assert(num == den);
        assert(n == 1 && d == 1);
        assert(segment(1, 1) == 3);
        let w = 25;
        let a = stop_channel(3, c);
        let b = stop_channel(4, c);
        assert(a * (25 * 1) + (b - a) * (100 * 1 - 75 * 1) == b * w) by (nonlinear_arith)
            requires
                w == 25,
        ;
        lemma_round_between(b * w, w, b, b);
        assert(ramp_channel(num, den, c) == round_half_up(b * w, w));
    } else {
        assert(0 < num < den) by (nonlinear_arith)
            requires
                num == stop_percent(j) * k,
                den == 100 * k,
                0 < stop_percent(j) < 100,
                k > 0,
        ;
        assert(n == num && d == den);
        assert(segment(n, d) == j - 1) by (nonlinear_arith)
            requires
                n == stop_percent(j) * k,
                d == 100 * k,
                k > 0,
                1 <= j <= 3,
                segment(n, d) == (if 100 * n <= stop_percent(1) * d {
                    0int
                } else if 100 * n <= stop_percent(2) * d {
                    1int
                } else if 100 * n <= stop_percent(3) * d {
                    2int
                } else {
                    3int
                }),
                stop_percent(1) == 25,
                stop_percent(2) == 50,
                stop_percent(3) == 75,
                j == 1 ==> stop_percent(j) == 25,
                j == 2 ==> stop_percent(j) == 50,
                j == 3 ==> stop_percent(j) == 75,
        ;
        let w = (stop_percent(j) - stop_percent(j - 1)) * d;
        let m = 100 * n - stop_percent(j - 1) * d;
        assert(m == w) by (nonlinear_arith)
            requires
                n == stop_percent(j) * k,
                d == 100 * k,
                w == (stop_percent(j) - stop_percent(j - 1)) * d,
                m == 100 * n - stop_percent(j - 1) * d,
        ;
        assert(w > 0) by (nonlinear_arith)
            requires
                w == (stop_percent(j) - stop_percent(j - 1)) * d,
                stop_percent(j) - stop_percent(j - 1) == 25,
                d > 0,
        ;
        let a = stop_channel(j - 1, c);
        let b = stop_channel(j, c);
        assert(a * w + (b - a) * m == b * w) by (nonlinear_arith)
            requires
                m == w,
        ;
        lemma_round_between(b * w, w, b, b);
    }
}

/// Linear interpolation between two channel values, rounded half up:
/// `a + (b - a) * offset / width`.
fn lerp_u8(a: u8, b: u8, offset: u64, width: u64) -> (v: u8)
    requires
        0 < width <= 0x100_0000_0000,
        offset <= width,
    ensures
        v == round_half_up(a * width + (b - a) * offset, width as int),
{
    let ghost value: int = a * width + (b - a) * offset;
    let numerator: u64 = if b >= a {
        assert((b - a) * offset <= 255 * 0x100_0000_0000) by (nonlinear_arith)
            requires
                0 <= b - a <= 255,
                0 <= offset <= 0x100_0000_0000,
        ;
        assert(a * width <= 255 * 0x100_0000_0000) by (nonlinear_arith)
            requires
                0 <= a <= 255,
                0 <= width <= 0x100_0000_0000,
        ;
        2 * (a as u64 * width + (b - a) as u64 * offset) + width
    } else {
        assert((a - b) * offset <= a * width) by (nonlinear_arith)
            requires
                0 <= a - b <= a,
                0 <= offset <= width,
        ;
        assert(a * width <= 255 * 0x100_0000_0000) by (nonlinear_arith)
            requires
                0 <= a <= 255,
                0 <= width <= 0x100_0000_0000,
        ;
        assert((b - a) * offset == -((a - b) * offset)) by (nonlinear_arith);
        2 * (a as u64 * width - (a - b) as u64 * offset) + width
    };
    assert(numerator == 2 * value + width);
    proof {
        let lo: int = if a <= b {
            a as int
        } else {
            b as int
        };
        let hi: int = if a <= b {
            b as int
        } else {
            a as int
        };
        assert(lo * width <= value <= hi * width) by (nonlinear_arith)
            requires
                value == a * width + (b - a) * offset,
                0 <= offset <= width,
                lo == (if a <= b {
                    a as int
                } else {
                    b as int
                }),
                hi == (if a <= b {
                    b as int
                } else {
                    a as int
                }),
        ;
        lemma_round_between(value, width as int, lo, hi);
    }
    let q = numerator / (2 * width);
    q as u8
}

/// The color of the ramp at position `t = num / den`, for `den > 0`:
/// transparent blue at 0, through cyan, green and yellow, to opaque red at 1.
pub fn ramp(num: i32, den: i32) -> (rgba: [u8; 4])
    requires
        den > 0,
    ensures
        forall|c: int| 0 <= c < 4 ==> rgba[c] == ramp_channel(num as int, den as int, c),
{
    let (n, d): (u64, u64) = if num <= 0 {
        (0, 1)
    } else if num >= den {
        (1, 1)
    } else {
        (num as u64, den as u64)
    };
    assert((n as int, d as int) == clamp_unit(num as int, den as int));
    let mut j: usize = 0;
    while j < 3 && 100 * n > stop(j + 1).0 * d
        invariant
            j <= 3,
            n <= d,
            0 < d <= 0x8000_0000,
            j >= 1 ==> 100 * n > stop_percent(1) * d,
            j >= 2 ==> 100 * n > stop_percent(2) * d,
            j >= 3 ==> 100 * n > stop_percent(3) * d,
        decreases 3 - j,
    {
        j = j + 1;
    }
    assert(j == segment(n as int, d as int));
    proof {
        lemma_segment_bounds(n as int, d as int);
    }
    let (lo, from) = stop(j);
    let (hi, to) = stop(j + 1);
    assert(hi - lo == 25);
    let width = (hi - lo) * d;
    let offset = 100 * n - lo * d;
    [
        lerp_u8(from[0], to[0], offset, width),
        lerp_u8(from[1], to[1], offset, width),
        lerp_u8(from[2], to[2], offset, width),
        lerp_u8(from[3], to[3], offset, width),
    ]
}

/// The color table: entry `i` is the ramp color at `i / 255`. Its first
/// entry is the first stop's color, its last entry the last stop's, and
/// alpha never decreases from one entry to the next.
pub fn build_palette() -> (table: [[u8; 4]; PALETTE_SIZE])
    ensures
        forall|i: int, c: int|
            0 <= i < PALETTE_SIZE && 0 <= c < 4 ==> table[i][c] == ramp_channel(
                i,
                PALETTE_SIZE - 1,
                c,
            ),
        forall|c: int| 0 <= c < 4 ==> table[0][c] == stop_channel(0, c),
        forall|c: int| 0 <= c < 4 ==> table[PALETTE_SIZE - 1][c] == stop_channel(4, c),
        forall|i: int, k: int| 0 <= i <= k < PALETTE_SIZE ==> table[i][3] <= table[k][3],
{
    let mut table = [[0u8; 4]; PALETTE_SIZE];
    let mut i: usize = 0;
    while i < PALETTE_SIZE
        invariant
            i <= PALETTE_SIZE,
            forall|k: int, c: int|
                0 <= k < i && 0 <= c < 4 ==> table[k][c] == ramp_channel(k, PALETTE_SIZE - 1, c),
        decreases PALETTE_SIZE - i,
    {
        let color = ramp(i as i32, (PALETTE_SIZE - 1) as i32);
        table[i] = color;
        i = i + 1;
    }
    proof {
        assert forall|c: int| 0 <= c < 4 implies table[0][c] == stop_channel(0, c) by {
            lemma_ramp_clamps(0, 255, c);
            lemma_ramp_hits_stops(0, 1, c);
        }
        assert forall|c: int| 0 <= c < 4 implies table[PALETTE_SIZE - 1][c] == stop_channel(
            4,
            c,
        ) by {
            lemma_ramp_clamps(255, 255, c);
            lemma_ramp_hits_stops(4, 1, c);
        }
        assert forall|i: int, k: int| 0 <= i <= k < PALETTE_SIZE implies table[i][3]
            <= table[k][3] by {
            assert(i * 255 <= k * 255) by (nonlinear_arith)
                requires
                    i <= k,
            ;
            lemma_ramp_alpha_monotone(i, 255, k, 255);
        }
    }
    table
}

} // verus!
