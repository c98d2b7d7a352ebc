use vstd::prelude::*;

verus! {

/// Fixed-point one: a value `v` stands for the real number `v / UNIT`.
pub const UNIT: u32 = 1000;

/// `v` clamped to `[lo, hi]`.
pub open spec fn clamp(v: int, lo: int, hi: int) -> int {
    if v < lo {
        lo
    } else if v > hi {
        hi
    } else {
        v
    }
}

/// Maps a raw noise value in `[-UNIT, UNIT]` onto `[0, UNIT]`, clamping
/// anything outside.
pub open spec fn normalize_spec(v: int) -> int {
    clamp((v + UNIT) / 2, 0, UNIT as int)
}

/// Maps a raw noise value (fixed point, nominally in `[-1, 1]`) onto
/// `[0, 1]`: `clamp((v + 1) / 2, 0, 1)`, rounded down.
pub fn normalize_noise(v: i32) -> (r: u32)
    ensures
        r == normalize_spec(v as int),
        r <= UNIT,
{
    let shifted: i64 = v as i64 + UNIT as i64;
    if shifted < 0 {
        0
    } else {
        let half: i64 = shifted / 2;
        if half > UNIT as i64 {
            UNIT
        } else {
            half as u32
        }
    }
}

/// Position of `x` inside `[edge0, edge1]`, as a distance from `edge0`
/// clamped to the width of the band.
pub open spec fn band_offset(edge0: int, edge1: int, x: int) -> int {
    clamp(x - edge0, 0, edge1 - edge0)
}

/// Numerator of the smoothstep cubic `t * t * (3 - 2 t)` with
/// `t = d / w`, over the denominator `w * w * w`.
pub open spec fn cubic(d: int, w: int) -> int {
    d * d * (3 * w - 2 * d)
}

/// `smoothstep(edge0, edge1, x)` in fixed point, rounded down: 0 at and below
/// `edge0`, `UNIT` at and above `edge1`, the cubic Hermite curve between.
pub open spec fn smoothstep_spec(edge0: int, edge1: int, x: int) -> int {
    let w = edge1 - edge0;
    UNIT * cubic(band_offset(edge0, edge1, x), w) / (w * w * w)
}

proof fn lemma_cubic_bounds(d: int, w: int)
    requires
        0 <= d <= w,
        0 < w,
    ensures
        0 <= cubic(d, w) <= w * w * w,
{
    assert(0 <= d * d) by (nonlinear_arith);
    assert(0 <= d * d * (3 * w - 2 * d)) by (nonlinear_arith)
        requires 0 <= d * d, 0 <= 3 * w - 2 * d;
    assert(w * w * w - cubic(d, w) == (w - d) * (w - d) * (w + 2 * d)) by (nonlinear_arith);
    assert(0 <= (w - d) * (w - d) * (w + 2 * d)) by (nonlinear_arith)
        requires 0 <= w - d, 0 <= w + 2 * d;
}

proof fn lemma_cubic_monotone(d1: int, d2: int, w: int)
    requires
        0 <= d1 <= d2 <= w,
    ensures
        cubic(d1, w) <= cubic(d2, w),
{
    assert(cubic(d2, w) - cubic(d1, w) == (d2 - d1) * (3 * w * (d1 + d2) - 2 * (d1 * d1 + d1
        * d2 + d2 * d2))) by (nonlinear_arith);
    assert(3 * w * (d1 + d2) >= 3 * d2 * (d1 + d2)) by (nonlinear_arith)
        requires d2 <= w, 0 <= d1 + d2;
    assert(3 * d2 * (d1 + d2) - 2 * (d1 * d1 + d1 * d2 + d2 * d2) == (d2 - d1) * (d2 + 2 * d1))
        by (nonlinear_arith);
    assert(0 <= (d2 - d1) * (d2 + 2 * d1)) by (nonlinear_arith)
        requires 0 <= d2 - d1, 0 <= d2 + 2 * d1;
    assert(0 <= (d2 - d1) * (3 * w * (d1 + d2) - 2 * (d1 * d1 + d1 * d2 + d2 * d2)))
        by (nonlinear_arith)
        requires
            0 <= d2 - d1,
            0 <= 3 * w * (d1 + d2) - 2 * (d1 * d1 + d1 * d2 + d2 * d2),
    ;
}

/// The smoothstep weight lies in `[0, UNIT]`.
pub proof fn lemma_smoothstep_range(edge0: int, edge1: int, x: int)
    requires
        edge0 < edge1,
    ensures
        0 <= smoothstep_spec(edge0, edge1, x) <= UNIT,
{
    let w = edge1 - edge0;
    let d = band_offset(edge0, edge1, x);
    lemma_cubic_bounds(d, w);
    assert(0 < w * w * w) by (nonlinear_arith)
        requires 0 < w;
    let c = cubic(d, w);
    let den = w * w * w;
    assert(0 <= UNIT * c <= UNIT * den) by (nonlinear_arith)
        requires 0 <= c <= den;
    assert(UNIT * c / den <= UNIT) by (nonlinear_arith)
        requires UNIT * c <= UNIT * den, 0 < den;
    assert(0 <= UNIT * c / den) by (nonlinear_arith)
        requires 0 <= UNIT * c, 0 < den;
}

/// Smoothstep is exactly 0 at and below the lower edge, exactly `UNIT` at and
/// above the upper edge, and non-decreasing in `x`.
pub proof fn lemma_smoothstep_monotone(edge0: int, edge1: int, x: int, y: int)
    requires
        edge0 < edge1,
        x <= y,
    ensures
        x <= edge0 ==> smoothstep_spec(edge0, edge1, x) == 0,
        x >= edge1 ==> smoothstep_spec(edge0, edge1, x) == UNIT,
        smoothstep_spec(edge0, edge1, x) <= smoothstep_spec(edge0, edge1, y),
{
    let w = edge1 - edge0;
    let dx = band_offset(edge0, edge1, x);
    let dy = band_offset(edge0, edge1, y);
    let den = w * w * w;
    assert(0 < den) by (nonlinear_arith)
        requires 0 < w, den == w * w * w;
    lemma_cubic_monotone(dx, dy, w);
    lemma_cubic_bounds(dx, w);
    let cx = cubic(dx, w);
    let cy = cubic(dy, w);
    assert(UNIT * cx <= UNIT * cy) by (nonlinear_arith)
        requires cx <= cy;
    assert((UNIT * cx) / den <= (UNIT * cy) / den) by (nonlinear_arith)
        requires UNIT * cx <= UNIT * cy, 0 < den;
    if x <= edge0 {
        assert(dx == 0);
        assert(cx == 0) by (nonlinear_arith)
            requires cx == cubic(dx, w), dx == 0;
    }
    if x >= edge1 {
        assert(dx == w);
        assert(cx == den) by (nonlinear_arith)
            requires cx == cubic(dx, w), dx == w, den == w * w * w;
        assert((UNIT * den) / den == UNIT) by (nonlinear_arith)
            requires 0 < den;
    }
}

/// `smoothstep(edge0, edge1, x)`: the cubic Hermite weight of `x` across the
/// band `[edge0, edge1]`, in fixed point, rounded down.
pub fn smoothstep(edge0: u32, edge1: u32, x: u32) -> (r: u32)
    requires
        edge0 < edge1,
    ensures
        r == smoothstep_spec(edge0 as int, edge1 as int, x as int),
        r <= UNIT,
{
    let w: u128 = (edge1 - edge0) as u128;
    let d: u128 = if x <= edge0 {
        0
    } else if x - edge0 >= edge1 - edge0 {
        w
    } else {
        (x - edge0) as u128
    };
    proof {
        lemma_cubic_bounds(d as int, w as int);
        lemma_smoothstep_range(edge0 as int, edge1 as int, x as int);
        assert(w * w <= 0x1_0000_0000u128 * 0x1_0000_0000u128) by (nonlinear_arith)
            requires w < 0x1_0000_0000u128;
        assert(w * w * w <= 0x1_0000_0000u128 * 0x1_0000_0000u128 * 0x1_0000_0000u128)
            by (nonlinear_arith)
            requires w * w <= 0x1_0000_0000u128 * 0x1_0000_0000u128, w < 0x1_0000_0000u128;
        assert(d * d <= w * w) by (nonlinear_arith)
            requires d <= w;
        assert(0 < w * w * w) by (nonlinear_arith)
            requires 0 < w;
    }
    let den: u128 = w * w * w;
    let num: u128 = d * d * (3 * w - 2 * d);
    proof {
        assert(num == cubic(d as int, w as int));
        assert(UNIT * num <= UNIT * den) by (nonlinear_arith)
            requires num <= den;
    }
    let r: u128 = (UNIT as u128) * num / den;
    r as u32
}

/// `v / d` rounded toward negative infinity, for a positive divisor.
pub fn floor_div(v: i64, d: i64) -> (q: i64)
    requires
        d > 0,
    ensures
        q == v / d,
{
    if v >= 0 {
        let q: u64 = (v as u64) / (d as u64);
        proof {
            vstd::arithmetic::div_mod::lemma_fundamental_div_mod(v as int, d as int);
            vstd::arithmetic::div_mod::lemma_fundamental_div_mod(v as u64 as int, d as u64 as int);
        }
        q as i64
    } else {
        let n: u64 = (-(v + 1)) as u64;
        let a: u64 = n / (d as u64);
        proof {
            let r = n as int % d as int;
            vstd::arithmetic::div_mod::lemma_fundamental_div_mod(n as int, d as int);
            assert(0 <= r < d);
            assert(v as int == (-(a as int) - 1) * d + (d - r - 1)) by (nonlinear_arith)
                requires
                    n as int == d * a + r,
                    n as int == -(v + 1),
            ;
            vstd::arithmetic::div_mod::lemma_fundamental_div_mod_converse(
                v as int,
                d as int,
                -(a as int) - 1,
                d - r - 1,
            );
        }
        -(a as i64) - 1
    }
}

} // verus!
