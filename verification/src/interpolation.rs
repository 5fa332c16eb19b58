//! What value and gradient noise are, in real arithmetic.
//!
//! Both mix four corner values by the quintic weights of an offset. The
//! fixed-point pipeline truncates on the way, by less than 170 steps of 2^-27
//! in all, so it follows the exact mixture everywhere.

use vstd::prelude::*;

use crate::continuity;
use crate::exact;
use crate::exact::Lat;
use crate::fixed;
use crate::fixed::ONE;
use crate::hash;
use crate::lattice;
use crate::math;
use crate::quintic;
use crate::ranges;

verus! {

/// The scale that the interpolating polynomial is taken at: one, to the
/// fifth power.
#[verifier::opaque]
pub open spec fn full() -> int {
    ONE * ONE * ONE * ONE * ONE
}

/// The weight of the far end of an edge, over [`full`], at an offset.
#[verifier::opaque]
pub open spec fn weight(offset: int) -> int {
    quintic::quintic(offset, ONE as int)
}

/// Two values mixed by a weight.
pub open spec fn mix2(a: int, b: int, w: int) -> int {
    a * (full() - w) + b * w
}

/// Four corner values mixed by the weights of an offset, times the square of
/// [`full`].
pub open spec fn mix4(n00: int, n10: int, n01: int, n11: int, x: int, y: int) -> int {
    mix2(mix2(n00, n10, weight(x)), mix2(n01, n11, weight(x)), weight(y))
}

/// The interpolant, the weight it stands for and their scales.
proof fn lemma_weight(x: int)
    requires
        0 <= x <= ONE,
    ensures
        ({
            let (s, f) = (ONE as int, full());
            let unit = s * s * s * s;
            &&& f == s * unit
            &&& unit > 0
            &&& f > 0
            &&& 0 <= weight(x) <= f
            &&& -(21 * unit) <= exact::smooth(x) * unit - weight(x) <= 21 * unit
            &&& 0 <= exact::smooth(x) <= s
        }),
{
    reveal(full);
    reveal(weight);
    let s = ONE as int;
    let unit = s * s * s * s;
    exact::lemma_smooth_in_unit(x);
    quintic::lemma_quintic_in_unit(x, s);
    assert(unit > 0 && s * unit > 0 && s * unit == s * s * s * s * s) by (nonlinear_arith)
        requires
            s == 134_217_728,
            unit == s * s * s * s,
    ;
}

/// A blend is the exact mixture of its ends, up to 85 steps.
proof fn lemma_blend_mixes(a: int, b: int, x: int)
    requires
        0 <= x <= ONE,
        -4 * ONE <= b - a <= 4 * ONE,
    ensures
        -(85 * full()) <= exact::blend(a, b, exact::smooth(x)) * full() - mix2(a, b, weight(x))
            <= 85 * full(),
{
    lemma_weight(x);
    let (s, f, w) = (ONE as int, full(), weight(x));
    let unit = s * s * s * s;
    let (u, g) = (exact::smooth(x), b - a);
    fixed::lemma_product_shrinks(u, g);
    fixed::lemma_product_is_truncated(u, g);
    let p = fixed::product(u, g);
    assert(fixed::times(u, g) == p);
    assert(-s < p * s - u * g < s);
    let e = u * unit - w;
    assert(-(84 * f) <= e * g <= 84 * f) by (nonlinear_arith)
        requires
            -(21 * unit) <= e <= 21 * unit,
            -4 * s <= g <= 4 * s,
            f == s * unit,
            unit > 0,
            s > 0,
    ;
    let d = p * s - u * g;
    assert(-f <= d * unit <= f) by (nonlinear_arith)
        requires
            -s < d < s,
            f == s * unit,
            unit > 0,
    ;
    assert(d * unit == p * f - (u * g) * unit) by (nonlinear_arith)
        requires
            d == p * s - u * g,
            f == s * unit,
    ;
    assert(e * g == (u * g) * unit - w * g) by (nonlinear_arith)
        requires
            e == u * unit - w,
    ;
    assert((a + p) * f == a * f + p * f) by (nonlinear_arith);
    assert(mix2(a, b, w) == a * f + w * g) by (nonlinear_arith)
        requires
            mix2(a, b, w) == a * (f - w) + b * w,
            g == b - a,
    ;
}

/// Mixing what is off by up to `k` gives what is off by up to `k` as much.
proof fn lemma_mix_error(a: int, b: int, c: int, d: int, w: int, k: int)
    requires
        0 <= w <= full(),
        -k <= a - c <= k,
        -k <= b - d <= k,
    ensures
        -(k * full()) <= mix2(a, b, w) - mix2(c, d, w) <= k * full(),
{
    let f = full();
    let v = f - w;
    assert(-(k * v) <= (a - c) * v <= k * v) by (nonlinear_arith)
        requires
            -k <= a - c <= k,
            v >= 0,
    ;
    assert(-(k * w) <= (b - d) * w <= k * w) by (nonlinear_arith)
        requires
            -k <= b - d <= k,
            w >= 0,
    ;
    assert((a - c) * v == a * v - c * v && (b - d) * w == b * w - d * w) by (nonlinear_arith);
    assert(k * v + k * w == k * f) by (nonlinear_arith)
        requires
            v == f - w,
    ;
}

/// Four corners that the fixed-point pipeline blends are mixed exactly, up to
/// 170 steps.
pub proof fn lemma_bilinear_mixes(n00: int, n10: int, n01: int, n11: int, x: int, y: int)
    requires
        -2 * ONE <= n00 <= 2 * ONE,
        -2 * ONE <= n10 <= 2 * ONE,
        -2 * ONE <= n01 <= 2 * ONE,
        -2 * ONE <= n11 <= 2 * ONE,
        0 <= x <= ONE,
        0 <= y <= ONE,
    ensures
        ({
            let unit = full() * full();
            let r = exact::bilinear(n00, n10, n01, n11, x, y);
            -(170 * unit) <= r * unit - mix4(n00, n10, n01, n11, x, y) <= 170 * unit
        }),
{
    reveal(exact::bilinear);
    let (f, u) = (full(), exact::smooth(x));
    let (near, far) = (exact::blend(n00, n10, u), exact::blend(n01, n11, u));
    let r = exact::bilinear(n00, n10, n01, n11, x, y);
    lemma_weight(x);
    lemma_weight(y);
    exact::lemma_blend_in_range(n00, n10, u, -2 * ONE, 2 * ONE);
    exact::lemma_blend_in_range(n01, n11, u, -2 * ONE, 2 * ONE);
    lemma_blend_mixes(n00, n10, x);
    lemma_blend_mixes(n01, n11, x);
    lemma_blend_mixes(near, far, y);
    let (wx, wy) = (weight(x), weight(y));
    lemma_mix_error(near * f, far * f, mix2(n00, n10, wx), mix2(n01, n11, wx), wy, 85 * f);
    assert(mix2(near * f, far * f, wy) == mix2(near, far, wy) * f) by (nonlinear_arith)
        requires
            mix2(near * f, far * f, wy) == (near * f) * (f - wy) + (far * f) * wy,
            mix2(near, far, wy) == near * (f - wy) + far * wy,
    ;
    let d = r * f - mix2(near, far, wy);
    assert(-((85 * f) * f) <= d * f <= (85 * f) * f) by (nonlinear_arith)
        requires
            -(85 * f) <= d <= 85 * f,
            f > 0,
    ;
    assert(d * f == r * (f * f) - mix2(near, far, wy) * f) by (nonlinear_arith)
        requires
            d == r * f - mix2(near, far, wy),
    ;
    assert((85 * f) * f == 85 * (f * f)) by (nonlinear_arith);
}

/// The cell that a position lies in.
pub open spec fn cell_of(p: int) -> int {
    p / ONE as int
}

/// The hash of the lattice point at the near corner of a cell, around the end
/// of the lattice.
pub open spec fn point_hash(cx: int, cy: int, seed: u32) -> u32 {
    hash::hashed2(math::wrap_i32(cx) as i32, math::wrap_i32(cy) as i32, seed)
}

/// The cell of a position, as a coordinate has it.
proof fn lemma_cell_at(p: int)
    ensures
        Lat::at(p).wf(),
        Lat::at(p).cell == math::wrap_i32(cell_of(p)),
        exact::neighbour(Lat::at(p).cell, 1) == math::wrap_i32(cell_of(p) + 1),
        Lat::at(p).frac == p - cell_of(p) * ONE,
{
    lattice::lemma_at_stands_for(p);
    let c = p / 134_217_728;
    assert(math::wrap_i32(math::wrap_i32(c) + 1) == math::wrap_i32(c + 1));
}

/// The value that a hash gives a lattice point: the hash as a fraction of
/// 2^32, stretched to `[-1, 1)` and cut to 23 bits.
pub proof fn lemma_signed_value_is_scaled_hash(h: u32)
    ensures
        0 <= h - 16 * (exact::signed_value(h) + ONE) < 512,
        exact::signed_value(h) % 32 == 0,
{
}

/// Value noise is the mixture of the hashed values at the four lattice points
/// around a position, up to 170 steps.
pub proof fn lemma_value_mixes_its_corners(p: (int, int), seed: u32)
    ensures
        ({
            let (cx, cy) = (cell_of(p.0), cell_of(p.1));
            let (x, y) = (p.0 - cx * ONE, p.1 - cy * ONE);
            let v = |i: int, j: int| exact::signed_value(point_hash(cx + i, cy + j, seed));
            let unit = full() * full();
            let r = exact::value_noise(Lat::at(p.0), Lat::at(p.1), seed);
            -(170 * unit) <= r * unit - mix4(v(0, 0), v(1, 0), v(0, 1), v(1, 1), x, y) <= 170
                * unit
        }),
{
    let (cx, cy) = (cell_of(p.0), cell_of(p.1));
    lemma_cell_at(p.0);
    lemma_cell_at(p.1);
    lemma_bilinear_mixes(
        exact::signed_value(point_hash(cx, cy, seed)),
        exact::signed_value(point_hash(cx + 1, cy, seed)),
        exact::signed_value(point_hash(cx, cy + 1, seed)),
        exact::signed_value(point_hash(cx + 1, cy + 1, seed)),
        p.0 - cx * ONE,
        p.1 - cy * ONE,
    );
}

/// The gradients are the axes and the diagonals: a component is zero or one
/// in magnitude, not both are zero, and the low three bits of the hash tell
/// them apart.
pub proof fn lemma_directions(h: u32, k: u32)
    ensures
        ({
            let (gx, gy) = exact::direction(h);
            &&& gx == -ONE || gx == 0 || gx == ONE
            &&& gy == -ONE || gy == 0 || gy == ONE
            &&& gx != 0 || gy != 0
        }),
        exact::direction(h) == exact::direction(k) <==> h % 8 == k % 8,
{
}

/// The low three bits of a hash say which gradient it stands for. The third
/// tells a diagonal from an axis. The first is the sign along the axis, or
/// across on a diagonal; the second is the axis, or the sign down.
pub proof fn lemma_direction_bits(h: u32)
    ensures
        ({
            let (gx, gy) = exact::direction(h);
            let first = ONE - 2 * (ONE * (h as int % 2));
            let second = ONE - 2 * (ONE * (h as int / 2 % 2));
            &&& h as int / 4 % 2 == 1 ==> gx == first && gy == second
            &&& h as int / 4 % 2 == 0 && h as int / 2 % 2 == 0 ==> gx == first && gy == 0
            &&& h as int / 4 % 2 == 0 && h as int / 2 % 2 == 1 ==> gx == 0 && gy == first
        }),
{
}

/// Every axis and every diagonal is a gradient.
pub proof fn lemma_every_direction_occurs(a: int, b: int) -> (g: u32)
    requires
        -1 <= a <= 1,
        -1 <= b <= 1,
        a != 0 || b != 0,
    ensures
        g < 8,
        exact::direction(g) == (a * ONE, b * ONE),
{
    if b == 0 {
        if a == 1 {
            0
        } else {
            1
        }
    } else if a == 0 {
        if b == 1 {
            2
        } else {
            3
        }
    } else if b == 1 {
        if a == 1 {
            4
        } else {
            5
        }
    } else if a == 1 {
        6
    } else {
        7
    }
}

/// The value that gradient noise has from one corner is the whole dot product
/// of the corner's gradient with the offset from it: both components count,
/// and nothing is rounded.
pub proof fn lemma_corner_is_dot_product(ix: i32, iy: i32, seed: u32, dx: int, dy: int)
    requires
        -ONE <= dx <= ONE,
        -ONE <= dy <= ONE,
    ensures
        ({
            let (gx, gy) = exact::direction(hash::hashed2(ix, iy, seed));
            exact::point_slope(ix, iy, seed, dx, dy) * ONE == gx * dx + gy * dy
        }),
{
    reveal(exact::point_slope);
    let (gx, gy) = exact::direction(hash::hashed2(ix, iy, seed));
    ranges::lemma_component(gx, dx);
    ranges::lemma_component(gy, dy);
    lemma_signed_copy(gx, dx);
    lemma_signed_copy(gy, dy);
}

proof fn lemma_signed_copy(g: int, d: int)
    requires
        g == 0 || g == ONE || g == -ONE,
    ensures
        g == 0 ==> g * d == 0,
        g == ONE ==> g * d == d * ONE,
        g == -ONE ==> g * d == -(d * ONE),
{
    assert(0 * d == 0 && (-ONE) * d == -(d * ONE) && ONE * d == d * ONE) by (nonlinear_arith);
}

/// The gradient at a lattice point, dotted with the way from it to a
/// position, times one.
pub open spec fn slope_from(cx: int, cy: int, p: (int, int), seed: u32) -> int {
    let (gx, gy) = exact::direction(point_hash(cx, cy, seed));
    gx * (p.0 - cx * ONE) + gy * (p.1 - cy * ONE)
}

/// Gradient noise is the mixture of the four slopes that the lattice points
/// around a position have there, up to 170 steps.
pub proof fn lemma_gradient_mixes_its_corners(p: (int, int), seed: u32)
    ensures
        ({
            let (cx, cy) = (cell_of(p.0), cell_of(p.1));
            let (x, y) = (p.0 - cx * ONE, p.1 - cy * ONE);
            let n = |i: int, j: int| slope_from(cx + i, cy + j, p, seed);
            let unit = full() * full();
            let r = exact::gradient_noise(Lat::at(p.0), Lat::at(p.1), seed);
            let m = mix4(n(0, 0), n(1, 0), n(0, 1), n(1, 1), x, y);
            -(170 * unit) * ONE <= (r * unit) * ONE - m <= (170 * unit) * ONE
        }),
{
    let (cx, cy) = (cell_of(p.0), cell_of(p.1));
    let s = ONE as int;
    lemma_cell_at(p.0);
    lemma_cell_at(p.1);
    let (x, y) = (p.0 - cx * s, p.1 - cy * s);
    let (ix, iy) = (math::wrap_i32(cx) as i32, math::wrap_i32(cy) as i32);
    let (jx, jy) = (math::wrap_i32(cx + 1) as i32, math::wrap_i32(cy + 1) as i32);
    assert((cx + 1) * s == cx * s + s && (cy + 1) * s == cy * s + s) by (nonlinear_arith);
    lemma_corner_is_dot_product(ix, iy, seed, x, y);
    lemma_corner_is_dot_product(jx, iy, seed, x - s, y);
    lemma_corner_is_dot_product(ix, jy, seed, x, y - s);
    lemma_corner_is_dot_product(jx, jy, seed, x - s, y - s);
    ranges::lemma_slope_magnitude(ix, iy, seed, x, y);
    ranges::lemma_slope_magnitude(jx, iy, seed, x - s, y);
    ranges::lemma_slope_magnitude(ix, jy, seed, x, y - s);
    ranges::lemma_slope_magnitude(jx, jy, seed, x - s, y - s);
    let (n00, n10) = (
        exact::point_slope(ix, iy, seed, x, y),
        exact::point_slope(jx, iy, seed, x - s, y),
    );
    let (n01, n11) = (
        exact::point_slope(ix, jy, seed, x, y - s),
        exact::point_slope(jx, jy, seed, x - s, y - s),
    );
    lemma_bilinear_mixes(n00, n10, n01, n11, x, y);
    lemma_mix4_scales(n00, n10, n01, n11, x, y);
    let unit = full() * full();
    let r = exact::gradient_noise(Lat::at(p.0), Lat::at(p.1), seed);
    assert(r == exact::bilinear(n00, n10, n01, n11, x, y));
    let d = r * unit - mix4(n00, n10, n01, n11, x, y);
    assert(-(170 * unit) * s <= d * s <= (170 * unit) * s) by (nonlinear_arith)
        requires
            -(170 * unit) <= d <= 170 * unit,
            s > 0,
    ;
    assert(d * s == (r * unit) * s - mix4(n00, n10, n01, n11, x, y) * s) by (nonlinear_arith)
        requires
            d == r * unit - mix4(n00, n10, n01, n11, x, y),
    ;
}

/// A mixture of larger values is larger.
proof fn lemma_mix4_scales(n00: int, n10: int, n01: int, n11: int, x: int, y: int)
    ensures
        mix4(n00 * ONE, n10 * ONE, n01 * ONE, n11 * ONE, x, y) == mix4(n00, n10, n01, n11, x, y)
            * ONE,
{
    lemma_mix2_scales(n00, n10, weight(x));
    lemma_mix2_scales(n01, n11, weight(x));
    lemma_mix2_scales(mix2(n00, n10, weight(x)), mix2(n01, n11, weight(x)), weight(y));
}

proof fn lemma_mix2_scales(a: int, b: int, w: int)
    ensures
        mix2(a * ONE, b * ONE, w) == mix2(a, b, w) * ONE,
{
    let v = full() - w;
    assert((a * ONE) * v + (b * ONE) * w == (a * v + b * w) * ONE) by (nonlinear_arith);
}

/// Along a lattice line only the component of the gradients along the line
/// counts: there gradient noise is the blend of the two slopes that leave the
/// lattice points at the ends of the edge, on both axes.
pub proof fn lemma_gradient_along_lattice_lines(cell: i32, l: Lat, seed: u32)
    requires
        l.wf(),
    ensures
        ({
            let f = l.frac as int;
            let (i, j) = (l.cell, exact::neighbour(l.cell, 1));
            let line = Lat { cell, frac: 0 };
            let (up, down) = (
                exact::direction(hash::hashed2(cell, i, seed)).1,
                exact::direction(hash::hashed2(cell, j, seed)).1,
            );
            let (left, right) = (
                exact::direction(hash::hashed2(i, cell, seed)).0,
                exact::direction(hash::hashed2(j, cell, seed)).0,
            );
            &&& exact::gradient_noise(line, l, seed) == exact::blend(
                up * f / (ONE as int),
                down * (f - ONE) / (ONE as int),
                exact::smooth(f),
            )
            &&& exact::gradient_noise(l, line, seed) == exact::blend(
                left * f / (ONE as int),
                right * (f - ONE) / (ONE as int),
                exact::smooth(f),
            )
        }),
{
    let f = l.frac as int;
    let (i, j) = (l.cell, exact::neighbour(l.cell, 1));
    let next = exact::neighbour(cell, 1);
    continuity::lemma_gradient_border_x(cell, next, i, j, 0, f, seed);
    continuity::lemma_gradient_border_y(i, j, cell, next, f, 0, seed);
    lemma_slope_along(cell, i, seed, f);
    lemma_slope_along(cell, j, seed, f - ONE);
    lemma_slope_along(i, cell, seed, f);
    lemma_slope_along(j, cell, seed, f - ONE);
}

/// The slope of a gradient along each axis.
proof fn lemma_slope_along(ix: i32, iy: i32, seed: u32, d: int)
    requires
        -ONE <= d <= ONE,
    ensures
        ({
            let (gx, gy) = exact::direction(hash::hashed2(ix, iy, seed));
            &&& exact::point_slope(ix, iy, seed, 0, d) == gy * d / (ONE as int)
            &&& exact::point_slope(ix, iy, seed, d, 0) == gx * d / (ONE as int)
        }),
{
    let (gx, gy) = exact::direction(hash::hashed2(ix, iy, seed));
    lemma_corner_is_dot_product(ix, iy, seed, 0, d);
    lemma_corner_is_dot_product(ix, iy, seed, d, 0);
    lemma_signed_copy(gx, d);
    lemma_signed_copy(gy, d);
    assert(gx * 0 == 0 && gy * 0 == 0) by (nonlinear_arith);
}

} // verus!
