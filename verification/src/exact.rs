//! The synthesis path in fixed point, identical on every machine.
//!
//! Every operation is an `i32` multiply, add or shift in the Q4.27 format
//! of [`crate::fixed`], and integer arithmetic has one answer: there is
//! nothing for a compiler to reassociate, nothing to contract, and no
//! fused operation to substitute.
//!
//! The construction: quintic interpolant, eight hashed gradients,
//! lacunarity two, coordinates split into an integer cell and a fractional
//! offset.

use vstd::arithmetic::power2::*;
use vstd::prelude::*;

use crate::fixed;
use crate::fixed::{Fx, ONE};
use crate::hash;
use crate::hash::{hash2, hash3};
use crate::ieee;
use crate::ieee::F32;
use crate::lattice;
pub use crate::lattice::Lat;
use crate::material::{Material, Pattern, Tile, TileId};
use crate::math;
use crate::noise::Basis;
use crate::quintic;
use crate::ranges;

verus! {

/// The value in `[-1, 1)` that a hash stands for: its top 23 bits over
/// 2^22, less one.
pub open spec fn signed_value(h: u32) -> int {
    (h as int / 512) * 32 - ONE
}

/// A hashed value in `[-1, 1)`.
///
/// Shifts only: the top 23 bits of the hash land directly in the top of
/// the fixed-point fraction.
pub fn signed(h: u32) -> (r: Fx)
    ensures
        r == signed_value(h),
        -ONE <= r < ONE,
        r % 32 == 0,
{
    let bits: u32 = (h >> 9u32) << 5u32;
    assert(bits == (h / 512) * 32 && bits < 0x1000_0000) by (bit_vector)
        requires
            bits == (h >> 9u32) << 5u32,
    ;
    bits as i32 - ONE
}

/// Quintic interpolant `6t^5 - 15t^4 + 10t^3`, in Horner form, each product
/// truncated.
#[verifier::opaque]
pub open spec fn smooth(t: int) -> int {
    let t3 = fixed::times(fixed::times(t, t), t);
    fixed::times(t3, smooth_outer(t))
}

/// The factor `6t - 15` of the interpolant.
pub open spec fn smooth_inner(t: int) -> int {
    fixed::times(t, 6 * ONE) - 15 * ONE
}

/// The factor `t(6t - 15) + 10` of the interpolant.
pub open spec fn smooth_outer(t: int) -> int {
    fixed::times(t, smooth_inner(t)) + 10 * ONE
}

/// Quintic interpolant `6t^5 - 15t^4 + 10t^3`, in Horner form.
///
/// `6t - 15` reaches -15, which is why the format keeps four integer bits.
/// Both factors have to fit it; on `[0, 1]` they do.
pub fn smootherstep(t: Fx) -> (r: Fx)
    requires
        math::fits_i32(smooth_inner(t as int)),
        math::fits_i32(smooth_outer(t as int)),
    ensures
        r == smooth(t as int),
{
    reveal(smooth);
    let t2: Fx = crate::fixed::mul(t, t);
    let t3: Fx = crate::fixed::mul(t2, t);
    let inner: Fx = crate::fixed::mul(t, 6 * ONE) - 15 * ONE;
    let outer: Fx = crate::fixed::mul(t, inner) + 10 * ONE;
    crate::fixed::mul(t3, outer)
}

/// The factor `6t^2 - 15t + 10` of the polynomial at `t / s`, times `s^2`.
pub open spec fn quintic_factor(t: int, s: int) -> int {
    6 * t * t - 15 * t * s + 10 * s * s
}

/// How far the truncated products on the way to the interpolant are from
/// the exact ones: the cube `c` is rounded down, and the factor `f` up.
pub proof fn lemma_smooth_steps(t: int) -> (r: (int, int))
    requires
        0 <= t <= ONE,
    ensures
        math::fits_i32(smooth_inner(t)),
        math::fits_i32(smooth_outer(t)),
        ({
            let (c, f) = r;
            let s = ONE as int;
            let exact = quintic_factor(t, s);
            &&& smooth(t) == fixed::times(c, f)
            &&& c == fixed::product(fixed::product(t, t), t)
            &&& f == fixed::product(t, 6 * t - 15 * s) + 10 * s
            &&& 0 <= c <= s
            &&& t * t * t - s * t - s * s <= c * s * s <= t * t * t
            &&& s * s <= exact <= 10 * s * s
            &&& exact <= f * s < exact + s
        }),
{
    reveal(smooth);
    let s = ONE as int;
    let t2 = fixed::product(t, t);
    let t3 = fixed::product(t2, t);
    fixed::lemma_product_shrinks(t, t);
    fixed::lemma_product_shrinks(t2, t);
    assert(fixed::times(t, t) == t2);
    assert(fixed::times(t2, t) == t3);
    assert(t * (6 * s) == (6 * t) * s) by (nonlinear_arith);
    assert(fixed::product(t, 6 * s) == 6 * t);
    let inner = 6 * t - 15 * s;
    assert(smooth_inner(t) == inner);
    fixed::lemma_product_shrinks(t, inner);
    let outer = smooth_outer(t);
    assert(outer == fixed::product(t, inner) + 10 * s);
    fixed::lemma_product_is_truncated(t, inner);
    let exact = quintic_factor(t, s);
    assert(t * inner <= 0) by (nonlinear_arith)
        requires
            0 <= t,
            inner <= 0,
    ;
    assert(exact == t * inner + 10 * s * s) by (nonlinear_arith)
        requires
            inner == 6 * t - 15 * s,
            exact == 6 * t * t - 15 * t * s + 10 * s * s,
    ;
    assert(exact >= s * s) by (nonlinear_arith)
        requires
            0 <= t <= s,
            inner == 6 * t - 15 * s,
            exact == t * inner + 10 * s * s,
    ;
    fixed::lemma_product_is_truncated(t, t);
    fixed::lemma_product_is_truncated(t2, t);
    assert(t * t >= 0 && t2 * t >= 0) by (nonlinear_arith)
        requires
            t >= 0,
            t2 >= 0,
    ;
    assert(t3 * s * s <= t * t * t) by (nonlinear_arith)
        requires
            t2 * s <= t * t,
            t3 * s <= t2 * t,
            0 <= t,
            0 < s,
    ;
    assert(t * t * t - s * t - s * s <= t3 * s * s) by (nonlinear_arith)
        requires
            t * t < (t2 + 1) * s,
            t2 * t < (t3 + 1) * s,
            0 <= t,
            0 < s,
    ;
    (t3, outer)
}

/// On the unit interval the interpolant fits the format, stays in the unit
/// interval, and follows the polynomial: it is at most one step above it and
/// less than 21 steps below it.
pub proof fn lemma_smooth_in_unit(t: int)
    requires
        0 <= t <= ONE,
    ensures
        math::fits_i32(smooth_inner(t)),
        math::fits_i32(smooth_outer(t)),
        0 <= smooth(t) <= ONE,
        ({
            let s = ONE as int;
            let q = quintic::quintic(t, s);
            let unit = s * s * s * s;
            q - 21 * unit < smooth(t) * unit <= q + unit
        }),
{
    let s = ONE as int;
    let (c, f) = lemma_smooth_steps(t);
    let exact = quintic_factor(t, s);
    let cube = t * t * t;
    quintic::lemma_quintic_in_unit(t, s);
    let q = quintic::quintic(t, s);
    assert(q == cube * exact);
    let css = c * s * s;
    let fs = f * s;
    assert(0 <= cube <= s * s * s) by {
        lemma_cube_bound(t, s);
    }
    // From above.
    assert(css * fs <= q + cube * s) by (nonlinear_arith)
        requires
            0 <= css <= cube,
            0 <= fs <= exact + s,
            q == cube * exact,
    ;
    assert(cube * s <= s * s * s * s) by (nonlinear_arith)
        requires
            cube <= s * s * s,
            s > 0,
    ;
    // From below.
    let low = cube - s * t - s * s;
    assert(css * fs >= css * exact) by (nonlinear_arith)
        requires
            0 <= css,
            exact <= fs,
    ;
    assert(css * exact >= low * exact) by (nonlinear_arith)
        requires
            low <= css,
            0 <= exact,
    ;
    let lost = s * t + s * s;
    assert(low * exact == q - lost * exact) by (nonlinear_arith)
        requires
            low == cube - lost,
            q == cube * exact,
    ;
    assert(0 <= lost <= 2 * (s * s)) by (nonlinear_arith)
        requires
            lost == s * t + s * s,
            0 <= t <= s,
    ;
    let ss = s * s;
    assert(lost * exact <= 20 * (ss * ss)) by (nonlinear_arith)
        requires
            0 <= lost <= 2 * ss,
            0 <= exact <= 10 * ss,
    ;
    assert(ss * ss == s * s * s * s) by (nonlinear_arith)
        requires
            ss == s * s,
    ;
    // The last truncation.
    let p = c * f;
    let unit = s * s * s * s;
    assert(css * fs == p * (s * s * s)) by (nonlinear_arith)
        requires
            css == c * s * s,
            fs == f * s,
            p == c * f,
    ;
    assert(p >= 0) by (nonlinear_arith)
        requires
            p == c * f,
            0 <= c,
            0 <= f * s,
            0 < s,
    ;
    assert(p <= s * s + s) by (nonlinear_arith)
        requires
            p * (s * s * s) <= s * s * s * s * s + s * s * s * s,
            s > 0,
    ;
    fixed::lemma_product_is_truncated(c, f);
    let r = fixed::product(c, f);
    assert(0 <= r <= s + 1);
    assert(r * unit <= p * (s * s * s)) by (nonlinear_arith)
        requires
            r * s <= p,
            unit == s * s * s * s,
            s > 0,
    ;
    assert(p * (s * s * s) < (r + 1) * unit) by (nonlinear_arith)
        requires
            p < (r + 1) * s,
            unit == s * s * s * s,
            s > 0,
    ;
    assert((r + 1) * unit == r * unit + unit) by (nonlinear_arith);
    // One step above one is not reached.
    assert(r <= s) by {
        lemma_not_above_one(t, s, c, f, exact);
    }
}

proof fn lemma_cube_bound(t: int, s: int)
    requires
        0 <= t <= s,
    ensures
        0 <= t * t * t <= s * s * s,
{
    assert(0 <= t * t <= s * s) by (nonlinear_arith)
        requires
            0 <= t <= s,
    ;
    assert(0 <= (t * t) * t <= (s * s) * s) by (nonlinear_arith)
        requires
            0 <= t * t <= s * s,
            0 <= t <= s,
    ;
}

/// The last product of the interpolant, before it is truncated, is less than
/// a step above one.
proof fn lemma_not_above_one(t: int, s: int, c: int, f: int, exact: int)
    requires
        0 <= t <= s,
        s > 1,
        0 <= c <= s,
        c * s * s <= t * t * t,
        exact == quintic_factor(t, s),
        exact >= 0,
        f * s < exact + s,
    ensures
        c * f < s * s + s,
{
    quintic::lemma_quintic_in_unit(t, s);
    assert((c * s * s) * exact <= t * t * t * exact) by (nonlinear_arith)
        requires
            c * s * s <= t * t * t,
            exact >= 0,
    ;
    assert(c * exact <= s * s * s) by (nonlinear_arith)
        requires
            (c * s * s) * exact <= s * s * s * s * s,
            s > 0,
    ;
    assert(c * (f * s) <= c * exact + c * (s - 1)) by (nonlinear_arith)
        requires
            c >= 0,
            f * s <= exact + (s - 1),
    ;
    assert(c * (s - 1) <= s * (s - 1)) by (nonlinear_arith)
        requires
            c <= s,
            s > 1,
    ;
    assert((c * f) * s == c * (f * s)) by (nonlinear_arith);
    assert(c * f < s * s + s) by (nonlinear_arith)
        requires
            (c * f) * s <= s * s * s + s * (s - 1),
            s > 1,
    ;
}

/// The interpolant is pinned at both ends.
pub proof fn lemma_smooth_endpoints()
    ensures
        smooth(0) == 0,
        smooth(ONE as int) == ONE,
{
    reveal(smooth);
    fixed::lemma_product_identity(0);
    fixed::lemma_product_identity(ONE as int);
    fixed::lemma_product_identity(6 * ONE);
    fixed::lemma_product_identity(-9 * ONE);
    fixed::lemma_product_identity(smooth_outer(0));
}

/// `a` moved towards `b` by the fraction `t`, truncated.
pub open spec fn blend(a: int, b: int, t: int) -> int {
    a + fixed::times(t, b - a)
}

/// Linear interpolation, exact at both ends.
pub fn lerp(a: Fx, b: Fx, t: Fx) -> (r: Fx)
    requires
        math::fits_i32(b - a),
        math::fits_i32(blend(a as int, b as int, t as int)),
    ensures
        r == blend(a as int, b as int, t as int),
{
    a + crate::fixed::mul(t, b - a)
}

/// A blend lies between its ends and reaches both.
pub proof fn lemma_blend_between(a: int, b: int, t: int)
    requires
        0 <= t <= ONE,
        math::fits_i32(b - a),
    ensures
        a <= b ==> a <= blend(a, b, t) <= b,
        b <= a ==> b <= blend(a, b, t) <= a,
        blend(a, b, 0) == a,
        blend(a, b, ONE as int) == b,
{
    fixed::lemma_product_shrinks(t, b - a);
    fixed::lemma_product_identity(b - a);
}

/// A blend mixes its ends as `t` says, to within a step, inside the ends and
/// beyond them.
pub proof fn lemma_blend_is_linear(a: int, b: int, t: int)
    requires
        math::fits_i32(fixed::product(t, b - a)),
    ensures
        -ONE < blend(a, b, t) * ONE - (a * (ONE - t) + b * t) < ONE,
        a <= b && t >= 0 || b <= a && t <= 0 ==> blend(a, b, t) * ONE <= a * (ONE - t) + b * t,
{
    assert(t * (b - a) == b * t - a * t && a * (ONE - t) == a * ONE - a * t) by (nonlinear_arith);
    fixed::lemma_product_is_truncated(t, b - a);
    assert(a <= b && t >= 0 || b <= a && t <= 0 ==> t * (b - a) >= 0) by (nonlinear_arith);
}

/// A blend of values in a range stays in it.
pub proof fn lemma_blend_in_range(a: int, b: int, t: int, lo: int, hi: int)
    requires
        0 <= t <= ONE,
        lo <= a <= hi,
        lo <= b <= hi,
        hi - lo <= i32::MAX,
    ensures
        lo <= blend(a, b, t) <= hi,
        math::fits_i32(b - a),
{
    lemma_blend_between(a, b, t);
}

/// The eight gradients: the axes and the diagonals.
pub open spec fn direction(h: u32) -> (int, int) {
    let one = ONE as int;
    match h % 8 {
        0 => (one, 0),
        1 => (-one, 0),
        2 => (0, one),
        3 => (0, -one),
        4 => (one, one),
        5 => (-one, one),
        6 => (one, -one),
        _ => (-one, -one),
    }
}

/// One of eight gradients, as exact fixed-point components.
///
/// Every component is 0 or one in magnitude, so a dot product with it is
/// exact.
pub fn gradient(h: u32) -> (r: (Fx, Fx))
    ensures
        (r.0 as int, r.1 as int) == direction(h),
{
    match h % 8 {
        0 => (ONE, 0),
        1 => (-ONE, 0),
        2 => (0, ONE),
        3 => (0, -ONE),
        4 => (ONE, ONE),
        5 => (-ONE, ONE),
        6 => (ONE, -ONE),
        _ => (-ONE, -ONE),
    }
}

/// The cell `by` places on from `cell`, around the end of the lattice.
pub open spec fn neighbour(cell: i32, by: int) -> i32 {
    math::wrap_i32(cell + by) as i32
}

/// The four corners of a cell, blended by the interpolants of the offset.
#[verifier::opaque]
pub open spec fn bilinear(
    n00: int,
    n10: int,
    n01: int,
    n11: int,
    xf: int,
    yf: int,
) -> int {
    blend(blend(n00, n10, smooth(xf)), blend(n01, n11, smooth(xf)), smooth(yf))
}

/// Blend four corner values.
fn blend_corners(n00: Fx, n10: Fx, n01: Fx, n11: Fx, xf: Fx, yf: Fx, Ghost(lo): Ghost<int>, Ghost(
    hi,
): Ghost<int>) -> (r: Fx)
    requires
        0 <= xf <= ONE,
        0 <= yf <= ONE,
        lo <= n00 <= hi,
        lo <= n10 <= hi,
        lo <= n01 <= hi,
        lo <= n11 <= hi,
        i32::MIN <= lo,
        hi <= i32::MAX,
        hi - lo <= i32::MAX,
    ensures
        r == bilinear(n00 as int, n10 as int, n01 as int, n11 as int, xf as int, yf as int),
        lo <= r <= hi,
{
    proof {
        lemma_smooth_in_unit(xf as int);
        lemma_smooth_in_unit(yf as int);
    }
    let u: Fx = smootherstep(xf);
    let v: Fx = smootherstep(yf);
    proof {
        lemma_blend_in_range(n00 as int, n10 as int, u as int, lo, hi);
        lemma_blend_in_range(n01 as int, n11 as int, u as int, lo, hi);
    }
    let near: Fx = lerp(n00, n10, u);
    let far: Fx = lerp(n01, n11, u);
    proof {
        lemma_blend_in_range(near as int, far as int, v as int, lo, hi);
    }
    reveal(bilinear);
    lerp(near, far, v)
}

/// The hashed value at a lattice point.
pub open spec fn point_value(ix: i32, iy: i32, seed: u32) -> int {
    signed_value(hash::hashed2(ix, iy, seed))
}

/// Value noise at a coordinate.
pub open spec fn value_noise(lx: Lat, ly: Lat, seed: u32) -> int {
    let (ix, iy) = (lx.cell, ly.cell);
    let (jx, jy) = (neighbour(ix, 1), neighbour(iy, 1));
    bilinear(
        point_value(ix, iy, seed),
        point_value(jx, iy, seed),
        point_value(ix, jy, seed),
        point_value(jx, jy, seed),
        lx.frac as int,
        ly.frac as int,
    )
}

/// Value noise: hashed scalars at lattice points, quintically blended.
pub fn value2(lx: Lat, ly: Lat, seed: u32) -> (r: Fx)
    requires
        lx.wf(),
        ly.wf(),
    ensures
        r == value_noise(lx, ly, seed),
        -ONE <= r < ONE,
{
    let ix: i32 = lx.cell;
    let iy: i32 = ly.cell;
    let jx: i32 = ix.wrapping_add(1);
    let jy: i32 = iy.wrapping_add(1);
    let c00: Fx = signed(hash2(ix, iy, seed));
    let c10: Fx = signed(hash2(jx, iy, seed));
    let c01: Fx = signed(hash2(ix, jy, seed));
    let c11: Fx = signed(hash2(jx, jy, seed));
    blend_corners(c00, c10, c01, c11, lx.frac, ly.frac, Ghost(-ONE as int), Ghost(ONE - 1))
}

/// The gradient at a lattice point, dotted with an offset from it.
#[verifier::opaque]
pub open spec fn point_slope(ix: i32, iy: i32, seed: u32, dx: int, dy: int) -> int {
    let (gx, gy) = direction(hash::hashed2(ix, iy, seed));
    fixed::times(gx, dx) + fixed::times(gy, dy)
}

/// Dot the gradient at a lattice point with an offset of at most a cell.
fn corner(ix: i32, iy: i32, seed: u32, dx: Fx, dy: Fx) -> (r: Fx)
    requires
        -ONE <= dx <= ONE,
        -ONE <= dy <= ONE,
    ensures
        r == point_slope(ix, iy, seed, dx as int, dy as int),
        -2 * ONE <= r <= 2 * ONE,
        dx == 0 && dy == 0 ==> r == 0,
{
    reveal(point_slope);
    let (gx, gy) = gradient(hash2(ix, iy, seed));
    proof {
        fixed::lemma_product_identity(dx as int);
        fixed::lemma_product_identity(dy as int);
        fixed::lemma_product_shrinks(gx as int, dx as int);
        fixed::lemma_product_shrinks(gy as int, dy as int);
    }
    crate::fixed::mul(gx, dx) + crate::fixed::mul(gy, dy)
}

/// Gradient noise at a coordinate.
pub open spec fn gradient_noise(lx: Lat, ly: Lat, seed: u32) -> int {
    let (ix, iy) = (lx.cell, ly.cell);
    let (jx, jy) = (neighbour(ix, 1), neighbour(iy, 1));
    let (xf, yf) = (lx.frac as int, ly.frac as int);
    bilinear(
        point_slope(ix, iy, seed, xf, yf),
        point_slope(jx, iy, seed, xf - ONE, yf),
        point_slope(ix, jy, seed, xf, yf - ONE),
        point_slope(jx, jy, seed, xf - ONE, yf - ONE),
        xf,
        yf,
    )
}

/// Gradient (Perlin) noise: a hashed gradient per lattice corner, dotted
/// with the offset to the sample point, blended quintically.
pub fn gradient2(lx: Lat, ly: Lat, seed: u32) -> (r: Fx)
    requires
        lx.wf(),
        ly.wf(),
    ensures
        r == gradient_noise(lx, ly, seed),
        -2 * ONE <= r <= 2 * ONE,
{
    let ix: i32 = lx.cell;
    let iy: i32 = ly.cell;
    let jx: i32 = ix.wrapping_add(1);
    let jy: i32 = iy.wrapping_add(1);
    let xf: Fx = lx.frac;
    let yf: Fx = ly.frac;
    let n00: Fx = corner(ix, iy, seed, xf, yf);
    let n10: Fx = corner(jx, iy, seed, xf - ONE, yf);
    let n01: Fx = corner(ix, jy, seed, xf, yf - ONE);
    let n11: Fx = corner(jx, jy, seed, xf - ONE, yf - ONE);
    blend_corners(n00, n10, n01, n11, xf, yf, Ghost(-2 * ONE), Ghost(2 * ONE))
}

/// Where in its cell the feature point lies, from a hash: in `[0, 1)`.
pub open spec fn jitter(h: u32) -> int {
    signed_value(h) / 2 + ONE / 2
}

/// The squared distance to the feature point of the cell `(ox, oy)` away.
pub open spec fn feature_distance2(lx: Lat, ly: Lat, seed: u32, ox: int, oy: int) -> int {
    let (cx, cy) = (neighbour(lx.cell, ox), neighbour(ly.cell, oy));
    let dx = ox * ONE + jitter(hash::hashed2(cx, cy, seed)) - lx.frac;
    let dy = oy * ONE + jitter(hash::hashed3(cx, cy, 1, seed)) - ly.frac;
    fixed::times(dx, dx) + fixed::times(dy, dy)
}

/// The least squared distance over the first `n` cells of the 3x3
/// neighbourhood, row by row.
pub open spec fn least_distance2(lx: Lat, ly: Lat, seed: u32, n: nat) -> int
    decreases n,
{
    if n == 0 {
        15 * ONE
    } else {
        let before = least_distance2(lx, ly, seed, (n - 1) as nat);
        let i = n - 1;
        let here = feature_distance2(lx, ly, seed, i % 3 - 1, i / 3 - 1);
        if here < before {
            here
        } else {
            before
        }
    }
}

/// Worley noise at a coordinate: the distance to the nearest of the nine
/// feature points around it.
pub open spec fn worley_noise(lx: Lat, ly: Lat, seed: u32) -> int {
    math::floor_sqrt((least_distance2(lx, ly, seed, 9) * ONE) as nat) as int
}

/// The squared distance to one feature point of the neighbourhood.
fn distance2(lx: Lat, ly: Lat, seed: u32, ox: i32, oy: i32) -> (r: Fx)
    requires
        lx.wf(),
        ly.wf(),
        -1 <= ox <= 1,
        -1 <= oy <= 1,
    ensures
        r == feature_distance2(lx, ly, seed, ox as int, oy as int),
        r >= 0,
{
    let cx: i32 = lx.cell.wrapping_add(ox);
    let cy: i32 = ly.cell.wrapping_add(oy);
    let sx: Fx = signed(hash2(cx, cy, seed));
    let sy: Fx = signed(hash3(cx, cy, 1, seed));
    assert(sx >> 1 == sx / 2) by (bit_vector);
    assert(sy >> 1 == sy / 2) by (bit_vector);
    // Halving a multiple of 32 raw units, so the shift discards nothing.
    let jx: Fx = (sx >> 1) + ONE / 2;
    let jy: Fx = (sy >> 1) + ONE / 2;
    let dx: Fx = ox * ONE + jx - lx.frac;
    let dy: Fx = oy * ONE + jy - ly.frac;
    proof {
        lemma_square_bounds(dx as int);
        lemma_square_bounds(dy as int);
    }
    crate::fixed::mul(dx, dx) + crate::fixed::mul(dy, dy)
}

/// The square of a distance below two cells is below four, and that of a
/// distance below one is below one.
pub proof fn lemma_square_bounds(d: int)
    requires
        -2 * ONE <= d <= 2 * ONE,
    ensures
        0 <= fixed::times(d, d) <= 4 * ONE,
        -ONE < d < ONE ==> fixed::times(d, d) < ONE,
{
    assert(0 <= d * d <= 0x0100_0000_0000_0000) by (nonlinear_arith)
        requires
            -0x1000_0000 <= d <= 0x1000_0000,
    ;
    assert(-0x0800_0000 < d < 0x0800_0000 ==> d * d < 0x0040_0000_0000_0000) by (nonlinear_arith);
}

/// Worley (cellular) noise: distance to the nearest feature point.
pub fn worley2(lx: Lat, ly: Lat, seed: u32) -> (r: Fx)
    requires
        lx.wf(),
        ly.wf(),
    ensures
        r == worley_noise(lx, ly, seed),
        0 <= r,
        2 * r < 3 * ONE,
{
    // Larger than any distance reachable in a 3x3 search.
    let mut best: Fx = 15 * ONE;
    let mut oy: i32 = -1;
    while oy <= 1
        invariant
            lx.wf(),
            ly.wf(),
            -1 <= oy <= 2,
            best == least_distance2(lx, ly, seed, (3 * (oy + 1)) as nat),
            best >= 0,
        decreases 2 - oy,
    {
        let mut ox: i32 = -1;
        while ox <= 1
            invariant
                lx.wf(),
                ly.wf(),
                -1 <= oy <= 1,
                -1 <= ox <= 2,
                best == least_distance2(lx, ly, seed, (3 * (oy + 1) + (ox + 1)) as nat),
                best >= 0,
            decreases 2 - ox,
        {
            let d2: Fx = distance2(lx, ly, seed, ox, oy);
            if d2 < best {
                best = d2;
            }
            ox = ox + 1;
        }
        oy = oy + 1;
    }
    proof {
        ranges::lemma_worley_range(lx, ly, seed);
    }
    fixed::sqrt(best)
}

/// One basis at a coordinate.
pub open spec fn basis_noise(b: Basis, lx: Lat, ly: Lat, seed: u32) -> int {
    match b {
        Basis::Value => value_noise(lx, ly, seed),
        Basis::Gradient => gradient_noise(lx, ly, seed),
        Basis::Worley => 2 * worley_noise(lx, ly, seed) - ONE,
    }
}

/// Evaluate one basis. Worley distance is recentred, so that octaves
/// compose sensibly.
pub fn basis(b: Basis, lx: Lat, ly: Lat, seed: u32) -> (r: Fx)
    requires
        lx.wf(),
        ly.wf(),
    ensures
        r == basis_noise(b, lx, ly, seed),
        -2 * ONE <= r <= 2 * ONE,
{
    match b {
        Basis::Value => value2(lx, ly, seed),
        Basis::Gradient => gradient2(lx, ly, seed),
        Basis::Worley => worley2(lx, ly, seed) * 2 - ONE,
    }
}

/// Per-octave seed step.
pub const SEED_STEP: u32 = 0x9e37_79b1;

/// A coordinate at octave `o`: doubled `o` times.
pub open spec fn octave(l: Lat, o: nat) -> Lat {
    Lat::at(pow2(o) * l.position())
}

/// The seed of octave `o`.
pub open spec fn octave_seed(seed: u32, o: nat) -> u32 {
    seed.wrapping_add((o as u32).wrapping_mul(SEED_STEP))
}

/// No two octaves of a sum share a seed, however many there are.
pub proof fn lemma_octave_seeds_distinct(seed: u32, o: nat, p: nat)
    requires
        o <= u32::MAX,
        p <= u32::MAX,
        octave_seed(seed, o) == octave_seed(seed, p),
    ensures
        o == p,
{
    hash::lemma_mul_injective(o as u32, p as u32, SEED_STEP, 0x0e8b_2f51);
}

/// The basis at octave `o`.
pub open spec fn octave_noise(b: Basis, lx: Lat, ly: Lat, seed: u32, o: nat) -> int {
    basis_noise(b, octave(lx, o), octave(ly, o), octave_seed(seed, o))
}

/// The first `n` octaves, each weighted by its amplitude.
pub open spec fn fractal_sum(b: Basis, lx: Lat, ly: Lat, seed: u32, n: nat) -> int
    decreases n,
{
    if n == 0 {
        0
    } else {
        let o = (n - 1) as nat;
        fractal_sum(b, lx, ly, seed, o) + fixed::times(
            fixed::amplitude(o),
            octave_noise(b, lx, ly, seed, o),
        )
    }
}

/// The fractal sum at a coordinate, scaled by `recip`.
#[verifier::opaque]
pub open spec fn fractal_noise(
    b: Basis,
    lx: Lat,
    ly: Lat,
    octaves: u32,
    seed: u32,
    recip: int,
) -> int {
    fixed::times(fractal_sum(b, lx, ly, seed, fixed::octave_count(octaves)), recip)
}

/// Doubling takes a coordinate from one octave to the next.
proof fn lemma_next_octave(l: Lat, o: nat)
    ensures
        Lat::at(2 * octave(l, o).position()) == octave(l, o + 1),
        octave(l, o).wf(),
{
    lattice::lemma_double_composes((pow2(o) * l.position()) as int);
    lemma_pow2_unfold(o + 1);
    assert(2 * (pow2(o) * l.position()) == (2 * pow2(o)) * l.position()) by (nonlinear_arith);
    lattice::lemma_at_stands_for((pow2(o) * l.position()) as int);
}

/// The first octave is the coordinate itself.
proof fn lemma_first_octave(l: Lat)
    requires
        l.wf(),
    ensures
        octave(l, 0) == l,
{
    lemma2_to64();
    lattice::lemma_at_own_position(l);
    assert(pow2(0) * l.position() == l.position()) by (nonlinear_arith)
        requires
            pow2(0) == 1,
    ;
}

/// An amplitude times a value of at most `bound` cells is at most `bound`
/// amplitudes.
proof fn lemma_term_bound(amp: int, v: int, bound: int)
    requires
        0 <= amp <= ONE,
        -bound * ONE <= v <= bound * ONE,
        0 <= bound <= 2,
    ensures
        -bound * amp <= fixed::times(amp, v) <= bound * amp,
        0 <= v ==> 0 <= fixed::times(amp, v),
{
    assert(-(bound * amp) * ONE <= amp * v <= (bound * amp) * ONE) by (nonlinear_arith)
        requires
            0 <= amp,
            -bound * ONE <= v <= bound * ONE,
    ;
    assert(0 <= v ==> 0 <= amp * v) by (nonlinear_arith)
        requires
            0 <= amp,
    ;
    assert(-bound * amp == -(bound * amp)) by (nonlinear_arith);
    assert(bound * amp <= 2 * ONE) by (nonlinear_arith)
        requires
            0 <= amp <= ONE,
            0 <= bound <= 2,
    ;
    fixed::lemma_product_is_truncated(amp, v);
}

/// Fractal sum.
///
/// `recip` is the reciprocal of [`crate::fixed::fractal_norm`] for this
/// octave count, computed by the caller, so that nothing divides here.
pub fn fbm(b: Basis, lx: Lat, ly: Lat, octaves: u32, seed: u32, recip: Fx) -> (r: Fx)
    requires
        lx.wf(),
        ly.wf(),
    ensures
        r == fractal_noise(b, lx, ly, octaves, seed, recip as int),
{
    let count: u32 = if octaves == 0 {
        1
    } else {
        octaves
    };
    let mut sum: Fx = 0;
    let mut amp: Fx = ONE;
    let mut cx: Lat = lx;
    let mut cy: Lat = ly;
    let mut o: u32 = 0;
    proof {
        fixed::lemma_amplitude_step(0);
        lemma_first_octave(lx);
        lemma_first_octave(ly);
    }
    while o < count
        invariant
            o <= count,
            amp == fixed::amplitude(o as nat),
            cx == octave(lx, o as nat),
            cy == octave(ly, o as nat),
            cx.wf(),
            cy.wf(),
            sum == fractal_sum(b, lx, ly, seed, o as nat),
            -2 * fixed::amplitude_sum(o as nat) <= sum <= 2 * fixed::amplitude_sum(o as nat),
        decreases count - o,
    {
        let v: Fx = basis(b, cx, cy, seed.wrapping_add(o.wrapping_mul(SEED_STEP)));
        proof {
            fixed::lemma_amplitude_step(o as nat);
            fixed::lemma_amplitude_sum_bounds((o + 1) as nat);
            lemma_term_bound(amp as int, v as int, 2);
            lemma_next_octave(lx, o as nat);
            lemma_next_octave(ly, o as nat);
        }
        sum = sum + crate::fixed::mul(amp, v);
        assert(amp >> 1 == amp / 2) by (bit_vector)
            requires
                amp >= 0,
        ;
        amp = amp >> 1;
        cx = cx.double();
        cy = cy.double();
        o = o + 1;
    }
    reveal(fractal_noise);
    crate::fixed::mul(sum, recip)
}

/// `1 - |v|`: a crest where `v` crosses zero.
pub open spec fn ridge(v: int) -> int {
    if v < 0 {
        ONE + v
    } else {
        ONE - v
    }
}

/// `r` to the power `k`, by repeated multiplication.
pub open spec fn sharpened(r: int, k: nat) -> int
    decreases k,
{
    if k <= 1 {
        r
    } else {
        fixed::times(sharpened(r, (k - 1) as nat), r)
    }
}

/// The ridge of octave `o`, sharpened.
pub open spec fn octave_ridge(
    b: Basis,
    lx: Lat,
    ly: Lat,
    sharpness: u32,
    seed: u32,
    o: nat,
) -> int {
    sharpened(ridge(octave_noise(b, lx, ly, seed, o)), sharpness as nat)
}

/// The ridges of the first `n` octaves, each weighted by its amplitude.
pub open spec fn ridged_sum(
    b: Basis,
    lx: Lat,
    ly: Lat,
    sharpness: u32,
    seed: u32,
    n: nat,
) -> int
    decreases n,
{
    if n == 0 {
        0
    } else {
        let o = (n - 1) as nat;
        ridged_sum(b, lx, ly, sharpness, seed, o) + fixed::times(
            fixed::amplitude(o),
            octave_ridge(b, lx, ly, sharpness, seed, o),
        )
    }
}

/// The ridged sum at a coordinate, scaled by `recip`.
#[verifier::opaque]
pub open spec fn ridged_noise(
    b: Basis,
    lx: Lat,
    ly: Lat,
    octaves: u32,
    sharpness: u32,
    seed: u32,
    recip: int,
) -> int {
    fixed::times(ridged_sum(b, lx, ly, sharpness, seed, fixed::octave_count(octaves)), recip)
}

/// Raise to an integer power by repeated multiplication.
fn sharpen(r: Fx, sharpness: u32) -> (sharp: Fx)
    requires
        -ONE <= r <= ONE,
    ensures
        sharp == sharpened(r as int, sharpness as nat),
        -ONE <= sharp <= ONE,
{
    let mut sharp: Fx = r;
    let mut k: u32 = 1;
    while k < sharpness
        invariant
            1 <= k,
            k <= sharpness || k == 1,
            -ONE <= r <= ONE,
            -ONE <= sharp <= ONE,
            sharp == sharpened(r as int, k as nat),
        decreases sharpness - k,
    {
        proof {
            fixed::lemma_product_shrinks(sharp as int, r as int);
        }
        sharp = crate::fixed::mul(sharp, r);
        k = k + 1;
    }
    proof {
        if sharpness == 0 {
            assert(sharpened(r as int, 0) == sharpened(r as int, 1));
        }
    }
    sharp
}

/// Ridged fractal sum, sharpened per octave.
///
/// The ridging has to happen inside the octave loop: ridging each octave
/// before accumulating is what puts a sharp crest at every zero crossing at
/// every scale.
pub fn ridged(
    b: Basis,
    lx: Lat,
    ly: Lat,
    octaves: u32,
    sharpness: u32,
    seed: u32,
    recip: Fx,
) -> (r: Fx)
    requires
        lx.wf(),
        ly.wf(),
    ensures
        r == ridged_noise(b, lx, ly, octaves, sharpness, seed, recip as int),
{
    let count: u32 = if octaves == 0 {
        1
    } else {
        octaves
    };
    let mut sum: Fx = 0;
    let mut amp: Fx = ONE;
    let mut cx: Lat = lx;
    let mut cy: Lat = ly;
    let mut o: u32 = 0;
    proof {
        fixed::lemma_amplitude_step(0);
        lemma_first_octave(lx);
        lemma_first_octave(ly);
    }
    while o < count
        invariant
            o <= count,
            amp == fixed::amplitude(o as nat),
            cx == octave(lx, o as nat),
            cy == octave(ly, o as nat),
            cx.wf(),
            cy.wf(),
            sum == ridged_sum(b, lx, ly, sharpness, seed, o as nat),
            -fixed::amplitude_sum(o as nat) <= sum <= fixed::amplitude_sum(o as nat),
        decreases count - o,
    {
        let v: Fx = basis(b, cx, cy, seed.wrapping_add(o.wrapping_mul(SEED_STEP)));
        let r: Fx = if v < 0 {
            ONE + v
        } else {
            ONE - v
        };
        let sharp: Fx = sharpen(r, sharpness);
        proof {
            fixed::lemma_amplitude_step(o as nat);
            fixed::lemma_amplitude_sum_bounds((o + 1) as nat);
            lemma_term_bound(amp as int, sharp as int, 1);
            lemma_next_octave(lx, o as nat);
            lemma_next_octave(ly, o as nat);
        }
        sum = sum + crate::fixed::mul(amp, sharp);
        assert(amp >> 1 == amp / 2) by (bit_vector)
            requires
                amp >= 0,
        ;
        amp = amp >> 1;
        cx = cx.double();
        cy = cy.double();
        o = o + 1;
    }
    reveal(ridged_noise);
    crate::fixed::mul(sum, recip)
}

/// Where the two warp fields are sampled, as `x` and `y` offsets: 5.2 and
/// 1.3 for the first, 1.7 and 9.2 for the second, converted from binary32.
pub const WARP_OFFSETS: [Fx; 4] = [697_932_160, 174_483_040, 228_170_144, 1_234_803_072];

/// Everything the synthesis needs that is computed once for a material.
#[derive(Debug, Clone, Copy)]
pub struct Prepared {
    /// Which primitive the fractal sum is built from.
    pub basis: Basis,
    /// How the octaves are combined.
    pub pattern: Pattern,
    /// Octave count, at least one.
    pub octaves: u32,
    /// Ridge exponent, at least one.
    pub sharpness: u32,
    /// Hash seed.
    pub seed: u32,
    /// Domain warp strength.
    pub warp: Fx,
    /// Contrast multiplier about `pivot`.
    pub contrast: Fx,
    /// The value contrast pivots around.
    pub pivot: Fx,
    /// Reciprocal of the normalisation for `octaves` octaves.
    pub recip: Fx,
    /// Reciprocal of the normalisation for the two-octave warp fields.
    pub recip2: Fx,
}

/// The reciprocal of the normalisation for a number of octaves.
pub open spec fn norm_recip(octaves: u32) -> int {
    ONE * ONE / fixed::amplitude_sum(fixed::octave_count(octaves))
}

/// The reciprocal of a normalisation is at least one half and at most one,
/// so it fits the format.
pub proof fn lemma_norm_recip(octaves: u32)
    ensures
        ONE / 2 <= norm_recip(octaves) <= ONE,
{
    let norm = fixed::amplitude_sum(fixed::octave_count(octaves));
    fixed::lemma_amplitude_sum_bounds(fixed::octave_count(octaves));
    let unit = 0x0040_0000_0000_0000int;
    assert(ONE * ONE == unit);
    assert(unit / (ONE as int) == ONE);
    assert(unit / 0x1000_0000 == 0x400_0000);
    vstd::arithmetic::div_mod::lemma_div_is_ordered_by_denominator(unit, ONE as int, norm);
    vstd::arithmetic::div_mod::lemma_div_is_ordered_by_denominator(unit, norm, 0x1000_0000);
}

/// A material in the form the synthesis consumes.
pub open spec fn prepared(m: Material) -> Prepared {
    Prepared {
        basis: m.basis,
        pattern: m.pattern,
        octaves: fixed::octave_count(m.octaves) as u32,
        sharpness: fixed::octave_count(m.sharpness) as u32,
        seed: m.seed,
        warp: fixed::converted(m.warp) as Fx,
        contrast: fixed::converted(m.contrast) as Fx,
        pivot: fixed::converted(m.pivot) as Fx,
        recip: norm_recip(m.octaves) as Fx,
        recip2: norm_recip(2) as Fx,
    }
}

impl Prepared {
    /// Convert a material into the form the synthesis consumes.
    pub fn new(m: &Material) -> (r: Self)
        ensures
            r == prepared(*m),
    {
        proof {
            lemma_norm_recip(m.octaves);
            lemma_norm_recip(2);
        }
        Prepared {
            basis: m.basis,
            pattern: m.pattern,
            octaves: if m.octaves == 0 {
                1
            } else {
                m.octaves
            },
            sharpness: if m.sharpness == 0 {
                1
            } else {
                m.sharpness
            },
            seed: m.seed,
            warp: fixed::from_f32(m.warp),
            contrast: fixed::from_f32(m.contrast),
            pivot: fixed::from_f32(m.pivot),
            recip: fixed::recip(fixed::fractal_norm(m.octaves)),
            recip2: fixed::recip(fixed::fractal_norm(2)),
        }
    }

    /// The two warp fields at a coordinate: value noise of two octaves,
    /// sampled off to one side.
    pub open spec fn warp_fields(self, lx: Lat, ly: Lat) -> (int, int) {
        let wx = fractal_noise(
            Basis::Value,
            Lat::at(lx.position() + WARP_OFFSETS[0]),
            Lat::at(ly.position() + WARP_OFFSETS[1]),
            2,
            self.seed ^ 0x5f35_6495,
            self.recip2 as int,
        );
        let wy = fractal_noise(
            Basis::Value,
            Lat::at(lx.position() + WARP_OFFSETS[2]),
            Lat::at(ly.position() + WARP_OFFSETS[3]),
            2,
            self.seed ^ 0x3c6e_f372,
            self.recip2 as int,
        );
        (wx, wy)
    }

    /// How far the domain is displaced at a coordinate: the warp strength
    /// times the two warp fields.
    pub open spec fn displacement(self, lx: Lat, ly: Lat) -> (int, int) {
        let (wx, wy) = self.warp_fields(lx, ly);
        (fixed::times(self.warp as int, wx), fixed::times(self.warp as int, wy))
    }

    /// The displacement at a coordinate leaves both offsets in the format.
    pub open spec fn warp_fits(self, lx: Lat, ly: Lat) -> bool {
        let (dx, dy) = self.displacement(lx, ly);
        math::fits_i32(lx.frac + dx) && math::fits_i32(ly.frac + dy)
    }

    /// The fractal sum at the displaced coordinate.
    pub open spec fn warped_noise(self, lx: Lat, ly: Lat) -> int {
        let (dx, dy) = self.displacement(lx, ly);
        fractal_noise(
            self.basis,
            Lat::at(lx.position() + dx),
            Lat::at(ly.position() + dy),
            self.octaves,
            self.seed,
            self.recip as int,
        )
    }

    /// The pattern at a coordinate, before it is remapped.
    pub open spec fn pattern_noise(self, lx: Lat, ly: Lat) -> int {
        match self.pattern {
            Pattern::Fractal => fractal_noise(
                self.basis,
                lx,
                ly,
                self.octaves,
                self.seed,
                self.recip as int,
            ),
            Pattern::Ridged => ridged_noise(
                self.basis,
                lx,
                ly,
                self.octaves,
                self.sharpness,
                self.seed,
                self.recip as int,
            ),
            Pattern::Warped => self.warped_noise(lx, ly),
        }
    }

    /// The pattern at a coordinate, as a lightness. Only the signed patterns
    /// are remapped; a ridged one already runs from zero to one.
    pub open spec fn lightness(self, lx: Lat, ly: Lat) -> int {
        let raw = self.pattern_noise(lx, ly);
        if self.pattern is Ridged {
            raw
        } else {
            raw / 2 + ONE / 2
        }
    }

    /// The lightness at a coordinate after the contrast remap.
    pub open spec fn remapped(self, lx: Lat, ly: Lat) -> int {
        fixed::times(self.lightness(lx, ly) - self.pivot, self.contrast as int) + self.pivot
    }

    /// Every sum on the way to the sample at a coordinate fits the format.
    pub open spec fn fits(self, lx: Lat, ly: Lat) -> bool {
        &&& self.pattern is Warped ==> self.warp_fits(lx, ly)
        &&& math::fits_i32(self.lightness(lx, ly) - self.pivot)
        &&& math::fits_i32(self.remapped(lx, ly))
    }

    /// No product of the displacement at a coordinate wraps around.
    pub open spec fn warp_unwrapped(self, lx: Lat, ly: Lat) -> bool {
        let (wx, wy) = self.warp_fields(lx, ly);
        &&& math::fits_i32(fixed::product(self.warp as int, wx))
        &&& math::fits_i32(fixed::product(self.warp as int, wy))
    }

    /// No product on the way to the sample at a coordinate wraps around.
    pub open spec fn unwrapped(self, lx: Lat, ly: Lat) -> bool {
        &&& self.pattern is Warped ==> self.warp_unwrapped(lx, ly)
        &&& math::fits_i32(
            fixed::product(self.lightness(lx, ly) - self.pivot, self.contrast as int),
        )
    }

    /// The sample at a coordinate, in steps of 2^-27: the remapped
    /// lightness, clamped to `[0, 1]`.
    pub open spec fn tone(self, lx: Lat, ly: Lat) -> int {
        let v = self.remapped(lx, ly);
        if v < 0 {
            0
        } else if v > ONE {
            ONE as int
        } else {
            v
        }
    }

    /// The sample at a coordinate, as binary32.
    pub open spec fn sampled(self, lx: Lat, ly: Lat) -> F32 {
        F32 { bits: ieee::nearest_f32(false, self.tone(lx, ly) as nat, -27) as u32 }
    }

    /// Measure how far the domain is displaced at a coordinate.
    fn displace(&self, lx: Lat, ly: Lat) -> (r: (Fx, Fx))
        requires
            lx.wf(),
            ly.wf(),
        ensures
            (r.0 as int, r.1 as int) == self.displacement(lx, ly),
    {
        let wx: Fx = fbm(
            Basis::Value,
            lx.offset(WARP_OFFSETS[0]),
            ly.offset(WARP_OFFSETS[1]),
            2,
            self.seed ^ 0x5f35_6495,
            self.recip2,
        );
        let wy: Fx = fbm(
            Basis::Value,
            lx.offset(WARP_OFFSETS[2]),
            ly.offset(WARP_OFFSETS[3]),
            2,
            self.seed ^ 0x3c6e_f372,
            self.recip2,
        );
        (crate::fixed::mul(self.warp, wx), crate::fixed::mul(self.warp, wy))
    }
}

/// Domain-warped fractal sum: sampled through a displaced domain.
pub fn warped(p: &Prepared, lx: Lat, ly: Lat) -> (r: Fx)
    requires
        lx.wf(),
        ly.wf(),
        p.warp_fits(lx, ly),
    ensures
        r == p.warped_noise(lx, ly),
{
    let (dx, dy) = p.displace(lx, ly);
    fbm(p.basis, lx.offset(dx), ly.offset(dy), p.octaves, p.seed, p.recip)
}

/// Evaluate a prepared material at one lattice coordinate.
pub fn sample(p: &Prepared, lx: Lat, ly: Lat) -> (r: F32)
    requires
        lx.wf(),
        ly.wf(),
        p.fits(lx, ly),
    ensures
        r == p.sampled(lx, ly),
        r.bits <= 0x3f80_0000,
{
    let raw: Fx = match p.pattern {
        Pattern::Fractal => fbm(p.basis, lx, ly, p.octaves, p.seed, p.recip),
        Pattern::Ridged => ridged(p.basis, lx, ly, p.octaves, p.sharpness, p.seed, p.recip),
        Pattern::Warped => warped(p, lx, ly),
    };
    assert(raw >> 1 == raw / 2) by (bit_vector);
    let unit: Fx = match p.pattern {
        Pattern::Ridged => raw,
        _ => (raw >> 1) + ONE / 2,
    };
    let v: Fx = crate::fixed::mul(unit - p.pivot, p.contrast) + p.pivot;
    let tone: Fx = if v < 0 {
        0
    } else if v > ONE {
        ONE
    } else {
        v
    };
    fixed::to_f32(tone)
}

/// Evaluate a prepared material at one lattice coordinate, or report that a
/// sum on the way leaves the format.
pub fn try_sample(p: &Prepared, lx: Lat, ly: Lat) -> (r: Option<F32>)
    requires
        lx.wf(),
        ly.wf(),
    ensures
        r == if p.fits(lx, ly) {
            Some(p.sampled(lx, ly))
        } else {
            None
        },
{
    let raw: Fx = match p.pattern {
        Pattern::Fractal => fbm(p.basis, lx, ly, p.octaves, p.seed, p.recip),
        Pattern::Ridged => ridged(p.basis, lx, ly, p.octaves, p.sharpness, p.seed, p.recip),
        Pattern::Warped => {
            let (dx, dy) = p.displace(lx, ly);
            if lx.frac.checked_add(dx).is_none() || ly.frac.checked_add(dy).is_none() {
                return None;
            }
            fbm(p.basis, lx.offset(dx), ly.offset(dy), p.octaves, p.seed, p.recip)
        },
    };
    assert(raw >> 1 == raw / 2) by (bit_vector);
    let unit: Fx = match p.pattern {
        Pattern::Ridged => raw,
        _ => (raw >> 1) + ONE / 2,
    };
    match unit.checked_sub(p.pivot) {
        None => None,
        Some(d) => match crate::fixed::mul(d, p.contrast).checked_add(p.pivot) {
            None => None,
            Some(v) => Some(
                fixed::to_f32(
                    if v < 0 {
                        0
                    } else if v > ONE {
                        ONE
                    } else {
                        v
                    },
                ),
            ),
        },
    }
}

/// The distance between the pixels of a tile, in steps of 2^-27: the
/// frequency over the width, as binary32 division gives it, converted.
pub open spec fn pixel_step(frequency: F32, size: u32) -> int {
    if frequency.nan() || frequency.sig() == 0 {
        0
    } else if size == 0 {
        if frequency.neg() {
            i32::MIN as int
        } else {
            i32::MAX as int
        }
    } else {
        let width = F32 { bits: ieee::nearest_f32(false, size as nat, 0) as u32 };
        let (q, e) = ieee::quotient(frequency.sig(), width.sig(), 24);
        let m = ieee::floor_scaled(q, e + frequency.exp() - width.exp() + 27) as int;
        math::saturate_i32(
            if frequency.neg() {
                -m
            } else {
                m
            },
        )
    }
}

/// The distance between the pixels of a tile of `size` pixels a side.
///
/// A quotient below the normal range of binary32 is rounded as one within
/// it; either way it converts to zero. A tile without pixels has the
/// quotient by zero, an infinity, which saturates.
pub fn step_between_pixels(frequency: F32, size: u32) -> (r: Fx)
    ensures
        r == pixel_step(frequency, size),
{
    if size == 0 {
        return match frequency.unpack() {
            None => 0,
            Some((neg, sig, _)) => if sig == 0 {
                0
            } else if neg {
                i32::MIN
            } else {
                i32::MAX
            },
        };
    }
    proof {
        lemma2_to64();
        ieee::lemma_bit_length_below(size as nat, 32);
        ieee::lemma_bit_length(size as nat);
        ieee::lemma_nearest_f32_parts(false, size as nat, 0);
    }
    let width: F32 = ieee::round_f32(false, size as u128, 0);
    match (frequency.unpack(), width.unpack()) {
        (Some((neg, sig, exp)), Some((_, wsig, wexp))) => {
            if sig == 0 {
                return 0;
            }
            proof {
                ieee::lemma_bit_length_below(sig as nat, 24);
                ieee::lemma_bit_length_below(wsig as nat, 24);
            }
            let (q, e) = ieee::divide(sig as u128, wsig as u128, 24);
            let m: u128 = ieee::floor_scale(q, e + exp - wexp + 27, 0x8000_0000);
            if neg {
                (-(m as i64)) as i32
            } else if m > 0x7fff_ffff {
                i32::MAX
            } else {
                m as i32
            }
        },
        _ => 0,
    }
}

/// The coordinate of pixel `n` of a row or a column.
pub open spec fn pixel_at(origin: Lat, step: int, n: int) -> Lat {
    Lat::at(origin.position() + n * step)
}

impl Material {
    /// The lattice coordinate of a tile's first pixel, along one axis.
    pub open spec fn tile_origin(self, index: i64) -> Lat {
        lattice::split_of(ieee::scaled(index, self.frequency))
    }

    /// The horizontal coordinate of sample `i` of a tile.
    pub open spec fn pixel_x(self, tile: TileId, size: u32, i: int) -> Lat {
        pixel_at(
            self.tile_origin(tile.x),
            pixel_step(self.frequency, size),
            i % (size as int),
        )
    }

    /// The vertical coordinate of sample `i` of a tile.
    pub open spec fn pixel_y(self, tile: TileId, size: u32, i: int) -> Lat {
        pixel_at(
            self.tile_origin(tile.y),
            pixel_step(self.frequency, size),
            i / (size as int),
        )
    }

    /// Sample `i` of a tile fits the format.
    pub open spec fn pixel_fits(self, tile: TileId, size: u32, i: int) -> bool {
        prepared(self).fits(self.pixel_x(tile, size, i), self.pixel_y(tile, size, i))
    }

    /// Sample `i` of a tile.
    pub open spec fn pixel(self, tile: TileId, size: u32, i: int) -> F32 {
        prepared(self).sampled(self.pixel_x(tile, size, i), self.pixel_y(tile, size, i))
    }

    /// The tile's samples can be counted in 32 bits, and each fits the
    /// format.
    pub open spec fn tile_fits(self, tile: TileId, size: u32) -> bool {
        &&& size * size <= u32::MAX
        &&& forall|i: int| 0 <= i < size * size ==> #[trigger] self.pixel_fits(tile, size, i)
    }

    /// A tile is this material's rendering of `tile`.
    pub open spec fn renders(self, tile: TileId, size: u32, t: Tile) -> bool {
        &&& t.size == size
        &&& t.wf()
        &&& forall|i: int| 0 <= i < t.data@.len() ==> #[trigger] t.data@[i] == self.pixel(
            tile,
            size,
            i,
        )
    }

    /// Render one tile with the fixed-point path, or report that a sample
    /// leaves the format, or that there are too many of them to count.
    pub fn try_render_tile_exact(&self, tile: TileId, size: u32) -> (r: Option<Tile>)
        ensures
            r is Some <==> self.tile_fits(tile, size),
            r matches Some(t) ==> self.renders(tile, size, t),
    {
        if size > 0xffff {
            assert(size * size > u32::MAX) by (nonlinear_arith)
                requires
                    size >= 0x1_0000,
            ;
            return None;
        }
        assert(size * size <= 0xffff * 0xffff) by (nonlinear_arith)
            requires
                0 <= size <= 0xffff,
        ;
        let mut data: Vec<F32> = Vec::new();
        if size == 0 {
            return Some(Tile { size, data });
        }
        let p: Prepared = Prepared::new(self);
        let ox: Lat = Lat::split(ieee::scale(tile.x, self.frequency));
        let oy: Lat = Lat::split(ieee::scale(tile.y, self.frequency));
        let step: Fx = step_between_pixels(self.frequency, size);
        let mut y: u32 = 0;
        while y < size
            invariant
                0 < size <= 0xffff,
                size * size <= 0xffff * 0xffff,
                y <= size,
                p == prepared(*self),
                ox == self.tile_origin(tile.x),
                oy == self.tile_origin(tile.y),
                ox.wf(),
                oy.wf(),
                step == pixel_step(self.frequency, size),
                data@.len() == y * size,
                forall|i: int|
                    0 <= i < data@.len() ==> #[trigger] data@[i] == self.pixel(tile, size, i),
                forall|i: int|
                    0 <= i < data@.len() ==> #[trigger] self.pixel_fits(tile, size, i),
            decreases size - y,
        {
            let ly: Lat = oy.step(y, step);
            let mut x: u32 = 0;
            while x < size
                invariant
                    0 < size <= 0xffff,
                    size * size <= 0xffff * 0xffff,
                    y < size,
                    x <= size,
                    p == prepared(*self),
                    ox == self.tile_origin(tile.x),
                    ox.wf(),
                    step == pixel_step(self.frequency, size),
                    ly == pixel_at(self.tile_origin(tile.y), step as int, y as int),
                    ly.wf(),
                    data@.len() == y * size + x,
                    forall|i: int|
                        0 <= i < data@.len() ==> #[trigger] data@[i] == self.pixel(tile, size, i),
                    forall|i: int|
                        0 <= i < data@.len() ==> #[trigger] self.pixel_fits(tile, size, i),
                decreases size - x,
            {
                let ghost i = (y * size + x) as int;
                proof {
                    vstd::arithmetic::div_mod::lemma_fundamental_div_mod_converse(
                        i,
                        size as int,
                        y as int,
                        x as int,
                    );
                    assert(0 <= i < size * size) by (nonlinear_arith)
                        requires
                            i == y * size + x,
                            0 <= y < size,
                            0 <= x < size,
                    ;
                }
                let lx: Lat = ox.step(x, step);
                assert(lx == self.pixel_x(tile, size, i));
                assert(ly == self.pixel_y(tile, size, i));
                match try_sample(&p, lx, ly) {
                    None => {
                        assert(!self.pixel_fits(tile, size, i));
                        return None;
                    },
                    Some(v) => {
                        assert(self.pixel_fits(tile, size, i));
                        data.push(v);
                    },
                }
                x = x + 1;
            }
            assert((y + 1) * size == y * size + size) by (nonlinear_arith);
            y = y + 1;
        }
        Some(Tile { size, data })
    }

    /// Render one tile with the fixed-point path.
    ///
    /// A tile's samples depend on nothing but the material, the tile's index
    /// and its size: rendering it does not depend on any other tile having
    /// been rendered.
    pub fn render_tile_exact(&self, tile: TileId, size: u32) -> (r: Tile)
        requires
            self.tile_fits(tile, size),
        ensures
            self.renders(tile, size, r),
    {
        match self.try_render_tile_exact(tile, size) {
            Some(t) => t,
            None => Tile { size, data: Vec::new() },
        }
    }

    /// Render the unit tile at the origin with the fixed-point path.
    pub fn render_exact(&self, size: u32) -> (r: Tile)
        requires
            self.tile_fits(TileId { x: 0, y: 0 }, size),
        ensures
            self.renders(TileId { x: 0, y: 0 }, size, r),
    {
        self.render_tile_exact(TileId::new(0, 0), size)
    }
}

} // verus!
