//! The field is continuous: it has no creases at cell borders, and a small
//! move changes it little.
//!
//! Moves are counted in steps of 2^-27, and so are the changes. Rounding
//! makes the worst single step steep; over longer moves it stays what it is,
//! and the slope of the noise itself is what counts. A coordinate with an
//! offset of a whole cell stands for the far border of its cell.

use vstd::prelude::*;

use crate::exact;
use crate::exact::Lat;
use crate::fixed;
use crate::fixed::ONE;
use crate::hash;
use crate::math;
use crate::quintic;
use crate::ranges;

verus! {

/// Value noise passes through the hashed values at the lattice points.
pub proof fn lemma_value_on_lattice(lx: Lat, ly: Lat, seed: u32)
    requires
        lx.frac == 0,
        ly.frac == 0,
    ensures
        exact::value_noise(lx, ly, seed) == exact::point_value(lx.cell, ly.cell, seed),
{
    reveal(exact::bilinear);
    exact::lemma_smooth_endpoints();
    let (ix, iy) = (lx.cell, ly.cell);
    let (jx, jy) = (exact::neighbour(ix, 1), exact::neighbour(iy, 1));
    let n00 = exact::point_value(ix, iy, seed);
    let n10 = exact::point_value(jx, iy, seed);
    let n01 = exact::point_value(ix, jy, seed);
    let n11 = exact::point_value(jx, jy, seed);
    exact::lemma_blend_between(n00, n10, 0);
    exact::lemma_blend_between(n01, n11, 0);
    exact::lemma_blend_between(n00, n01, 0);
}

/// Gradient noise vanishes at the lattice points.
pub proof fn lemma_gradient_on_lattice(lx: Lat, ly: Lat, seed: u32)
    requires
        lx.frac == 0,
        ly.frac == 0,
    ensures
        exact::gradient_noise(lx, ly, seed) == 0,
{
    reveal(exact::bilinear);
    exact::lemma_smooth_endpoints();
    let s = ONE as int;
    let (ix, iy) = (lx.cell, ly.cell);
    let (jx, jy) = (exact::neighbour(ix, 1), exact::neighbour(iy, 1));
    ranges::lemma_slope_magnitude(ix, iy, seed, 0, 0);
    ranges::lemma_slope_magnitude(jx, iy, seed, -s, 0);
    ranges::lemma_slope_magnitude(ix, jy, seed, 0, -s);
    ranges::lemma_slope_magnitude(jx, jy, seed, -s, -s);
    let n00 = exact::point_slope(ix, iy, seed, 0, 0);
    let n10 = exact::point_slope(jx, iy, seed, -s, 0);
    let n01 = exact::point_slope(ix, jy, seed, 0, -s);
    let n11 = exact::point_slope(jx, jy, seed, -s, -s);
    exact::lemma_blend_between(n00, n10, 0);
    exact::lemma_blend_between(n01, n11, 0);
    exact::lemma_blend_between(n00, n01, 0);
}

/// At the far border of a cell only the far corners count.
proof fn lemma_bilinear_borders(n00: int, n10: int, n01: int, n11: int, f: int)
    requires
        -2 * ONE <= n00 <= 2 * ONE,
        -2 * ONE <= n10 <= 2 * ONE,
        -2 * ONE <= n01 <= 2 * ONE,
        -2 * ONE <= n11 <= 2 * ONE,
        0 <= f <= ONE,
    ensures
        exact::bilinear(n00, n10, n01, n11, ONE as int, f) == exact::blend(
            n10,
            n11,
            exact::smooth(f),
        ),
        exact::bilinear(n00, n10, n01, n11, 0, f) == exact::blend(n00, n01, exact::smooth(f)),
        exact::bilinear(n00, n10, n01, n11, f, ONE as int) == exact::blend(
            n01,
            n11,
            exact::smooth(f),
        ),
        exact::bilinear(n00, n10, n01, n11, f, 0) == exact::blend(n00, n10, exact::smooth(f)),
{
    reveal(exact::bilinear);
    exact::lemma_smooth_endpoints();
    exact::lemma_smooth_in_unit(f);
    exact::lemma_blend_between(n00, n10, 0);
    exact::lemma_blend_between(n01, n11, 0);
    let u = exact::smooth(f);
    let (lo, hi) = (-2 * ONE, 2 * ONE);
    exact::lemma_blend_in_range(n00, n10, u, lo, hi);
    exact::lemma_blend_in_range(n01, n11, u, lo, hi);
    exact::lemma_blend_between(exact::blend(n00, n10, u), exact::blend(n01, n11, u), 0);
}

/// Value noise has no crease: at the far border of a cell it is what it is
/// at the near border of the next, along both axes.
pub proof fn lemma_value_borders(cell: i32, l: Lat, seed: u32)
    requires
        0 <= l.frac <= ONE,
    ensures
        ({
            let far = Lat { cell, frac: ONE };
            let near = Lat { cell: exact::neighbour(cell, 1), frac: 0 };
            &&& exact::value_noise(far, l, seed) == exact::value_noise(near, l, seed)
            &&& exact::value_noise(l, far, seed) == exact::value_noise(l, near, seed)
        }),
{
    let f = l.frac as int;
    let (i, j) = (l.cell, exact::neighbour(l.cell, 1));
    let c1 = exact::neighbour(cell, 1);
    let c2 = exact::neighbour(c1, 1);
    lemma_bilinear_borders(
        exact::point_value(cell, i, seed),
        exact::point_value(c1, i, seed),
        exact::point_value(cell, j, seed),
        exact::point_value(c1, j, seed),
        f,
    );
    lemma_bilinear_borders(
        exact::point_value(c1, i, seed),
        exact::point_value(c2, i, seed),
        exact::point_value(c1, j, seed),
        exact::point_value(c2, j, seed),
        f,
    );
    lemma_bilinear_borders(
        exact::point_value(i, cell, seed),
        exact::point_value(j, cell, seed),
        exact::point_value(i, c1, seed),
        exact::point_value(j, c1, seed),
        f,
    );
    lemma_bilinear_borders(
        exact::point_value(i, c1, seed),
        exact::point_value(j, c1, seed),
        exact::point_value(i, c2, seed),
        exact::point_value(j, c2, seed),
        f,
    );
}

/// The slope at a lattice point is at most two in magnitude.
proof fn lemma_slope_bound(ix: i32, iy: i32, seed: u32, dx: int, dy: int)
    requires
        -ONE <= dx <= ONE,
        -ONE <= dy <= ONE,
    ensures
        -2 * ONE <= exact::point_slope(ix, iy, seed, dx, dy) <= 2 * ONE,
{
    ranges::lemma_slope_magnitude(ix, iy, seed, dx, dy);
}

/// Gradient noise has no crease either.
pub proof fn lemma_gradient_borders(cell: i32, l: Lat, seed: u32)
    requires
        0 <= l.frac <= ONE,
    ensures
        ({
            let far = Lat { cell, frac: ONE };
            let near = Lat { cell: exact::neighbour(cell, 1), frac: 0 };
            &&& exact::gradient_noise(far, l, seed) == exact::gradient_noise(near, l, seed)
            &&& exact::gradient_noise(l, far, seed) == exact::gradient_noise(l, near, seed)
        }),
{
    let f = l.frac as int;
    let s = ONE as int;
    let (i, j) = (l.cell, exact::neighbour(l.cell, 1));
    let c1 = exact::neighbour(cell, 1);
    let c2 = exact::neighbour(c1, 1);
    lemma_gradient_border_x(cell, c1, i, j, s, f, seed);
    lemma_gradient_border_x(c1, c2, i, j, 0, f, seed);
    lemma_gradient_border_y(i, j, cell, c1, f, s, seed);
    lemma_gradient_border_y(i, j, c1, c2, f, 0, seed);
}

/// Gradient noise at a vertical border, of the cell between columns `a` and
/// `b` and rows `i` and `j`.
pub proof fn lemma_gradient_border_x(a: i32, b: i32, i: i32, j: i32, x: int, f: int, seed: u32)
    requires
        x == 0 || x == ONE,
        0 <= f <= ONE,
    ensures
        ({
            let c = if x == 0 {
                a
            } else {
                b
            };
            exact::bilinear(
                exact::point_slope(a, i, seed, x, f),
                exact::point_slope(b, i, seed, x - ONE, f),
                exact::point_slope(a, j, seed, x, f - ONE),
                exact::point_slope(b, j, seed, x - ONE, f - ONE),
                x,
                f,
            ) == exact::blend(
                exact::point_slope(c, i, seed, 0, f),
                exact::point_slope(c, j, seed, 0, f - ONE),
                exact::smooth(f),
            )
        }),
{
    lemma_slope_bound(a, i, seed, x, f);
    lemma_slope_bound(b, i, seed, x - ONE, f);
    lemma_slope_bound(a, j, seed, x, f - ONE);
    lemma_slope_bound(b, j, seed, x - ONE, f - ONE);
    lemma_bilinear_borders(
        exact::point_slope(a, i, seed, x, f),
        exact::point_slope(b, i, seed, x - ONE, f),
        exact::point_slope(a, j, seed, x, f - ONE),
        exact::point_slope(b, j, seed, x - ONE, f - ONE),
        f,
    );
}

/// Gradient noise at a horizontal border.
pub proof fn lemma_gradient_border_y(i: i32, j: i32, a: i32, b: i32, f: int, y: int, seed: u32)
    requires
        y == 0 || y == ONE,
        0 <= f <= ONE,
    ensures
        ({
            let c = if y == 0 {
                a
            } else {
                b
            };
            exact::bilinear(
                exact::point_slope(i, a, seed, f, y),
                exact::point_slope(j, a, seed, f - ONE, y),
                exact::point_slope(i, b, seed, f, y - ONE),
                exact::point_slope(j, b, seed, f - ONE, y - ONE),
                f,
                y,
            ) == exact::blend(
                exact::point_slope(i, c, seed, f, 0),
                exact::point_slope(j, c, seed, f - ONE, 0),
                exact::smooth(f),
            )
        }),
{
    lemma_slope_bound(i, a, seed, f, y);
    lemma_slope_bound(j, a, seed, f - ONE, y);
    lemma_slope_bound(i, b, seed, f, y - ONE);
    lemma_slope_bound(j, b, seed, f - ONE, y - ONE);
    lemma_bilinear_borders(
        exact::point_slope(i, a, seed, f, y),
        exact::point_slope(j, a, seed, f - ONE, y),
        exact::point_slope(i, b, seed, f, y - ONE),
        exact::point_slope(j, b, seed, f - ONE, y - ONE),
        f,
    );
}

/// A product that changes by between `lo` and `hi` ones changes by that many
/// steps when it is truncated, if it keeps its sign.
proof fn lemma_truncated_change(a: int, b: int, lo: int, hi: int)
    requires
        (a >= 0 && b >= 0) || (a <= 0 && b <= 0),
        lo * ONE <= b - a <= hi * ONE,
    ensures
        lo <= math::trunc_div(b, ONE as int) - math::trunc_div(a, ONE as int) <= hi,
{
}

/// One step on, the interpolant is at most 30 steps on, and at most 15 back.
pub proof fn lemma_smooth_step(t: int)
    requires
        0 <= t < ONE,
    ensures
        -15 <= exact::smooth(t + 1) - exact::smooth(t) <= 30,
{
    let s = ONE as int;
    let (c, f) = exact::lemma_smooth_steps(t);
    let (c1, f1) = exact::lemma_smooth_steps(t + 1);
    exact::lemma_smooth_in_unit(t);
    exact::lemma_smooth_in_unit(t + 1);
    let (t2, u2) = (fixed::product(t, t), fixed::product(t + 1, t + 1));
    fixed::lemma_product_shrinks(t, t);
    fixed::lemma_product_shrinks(t + 1, t + 1);
    assert((t + 1) * (t + 1) == t * t + 2 * t + 1) by (nonlinear_arith);
    assert(t * t >= 0) by (nonlinear_arith);
    lemma_truncated_change(t * t, (t + 1) * (t + 1), 0, 2);
    assert(u2 * (t + 1) - t2 * t == (u2 - t2) * (t + 1) + t2) by (nonlinear_arith);
    assert(0 <= (u2 - t2) * (t + 1) <= 2 * s) by (nonlinear_arith)
        requires
            0 <= u2 - t2 <= 2,
            0 <= t < s,
    ;
    assert(t2 * t >= 0 && u2 * (t + 1) >= 0) by (nonlinear_arith)
        requires
            t >= 0,
            t2 >= 0,
            u2 >= 0,
    ;
    lemma_truncated_change(t2 * t, u2 * (t + 1), 0, 3);
    assert(0 <= c1 - c <= 3);
    let (inner, inner1) = (6 * t - 15 * s, 6 * (t + 1) - 15 * s);
    assert((t + 1) * inner1 == t * inner + 12 * t + 6 - 15 * s) by (nonlinear_arith)
        requires
            inner == 6 * t - 15 * s,
            inner1 == 6 * (t + 1) - 15 * s,
    ;
    assert(t * inner <= 0 && (t + 1) * inner1 <= 0) by (nonlinear_arith)
        requires
            t >= 0,
            inner <= 0,
            inner1 <= 0,
    ;
    lemma_truncated_change(t * inner, (t + 1) * inner1, -15, 0);
    assert(-15 <= f1 - f <= 0);
    // Both factors are positive, and the second at most ten.
    assert(0 <= f1 <= 10 * s && 0 <= f) by (nonlinear_arith)
        requires
            exact::quintic_factor(t + 1, s) <= f1 * s,
            f1 * s < exact::quintic_factor(t + 1, s) + s,
            s * s <= exact::quintic_factor(t + 1, s) <= 10 * s * s,
            exact::quintic_factor(t, s) <= f * s,
            s * s <= exact::quintic_factor(t, s),
            s > 0,
    ;
    assert(c1 * f1 - c * f == (c1 - c) * f1 + c * (f1 - f)) by (nonlinear_arith);
    assert(0 <= (c1 - c) * f1 <= 30 * s) by (nonlinear_arith)
        requires
            0 <= c1 - c <= 3,
            0 <= f1 <= 10 * s,
    ;
    assert(-15 * s <= c * (f1 - f) <= 0) by (nonlinear_arith)
        requires
            0 <= c <= s,
            -15 <= f1 - f <= 0,
    ;
    assert(c * f >= 0 && c1 * f1 >= 0) by (nonlinear_arith)
        requires
            c >= 0,
            c1 >= 0,
            f >= 0,
            f1 >= 0,
    ;
    lemma_truncated_change(c * f, c1 * f1, -15, 30);
    lemma_times_is_product(c, f);
    lemma_times_is_product(c1, f1);
}

/// The last product of the interpolant does not wrap.
proof fn lemma_times_is_product(c: int, f: int)
    requires
        0 <= c <= ONE,
        0 <= f <= 10 * ONE,
    ensures
        fixed::times(c, f) == fixed::product(c, f),
{
    fixed::lemma_product_shrinks(c, f);
}

/// Over `n` steps the polynomial rises by at most `2n` steps, and never falls.
proof fn lemma_quintic_moves(t: int, n: nat)
    requires
        0 <= t,
        t + n <= ONE,
    ensures
        ({
            let s = ONE as int;
            let unit = s * s * s * s;
            0 <= quintic::quintic(t + n, s) - quintic::quintic(t, s) <= (2 * n) * unit
        }),
    decreases n,
{
    let s = ONE as int;
    let unit = s * s * s * s;
    if n == 0 {
        assert(0 * unit == 0) by (nonlinear_arith);
    } else {
        let m = (n - 1) as nat;
        lemma_quintic_moves(t, m);
        quintic::lemma_quintic_step(t + m, s);
        assert(30 * (((s + 1) * (s + 1)) * ((s + 1) * (s + 1))) <= 32 * unit) by (nonlinear_arith)
            requires
                s == 134_217_728,
                unit == s * s * s * s,
        ;
        assert((2 * n) * unit == (2 * m) * unit + 2 * unit) by (nonlinear_arith)
            requires
                n == m + 1,
        ;
        assert(t + m + 1 == t + n);
    }
}

/// Over `n` steps the interpolant moves by at most `2n + 21` steps.
pub proof fn lemma_smooth_moves(t: int, u: int)
    requires
        0 <= t <= u <= ONE,
    ensures
        within(exact::smooth(t), exact::smooth(u), 2 * (u - t) + 21),
{
    let s = ONE as int;
    let unit = s * s * s * s;
    let n = (u - t) as nat;
    exact::lemma_smooth_in_unit(t);
    exact::lemma_smooth_in_unit(u);
    lemma_quintic_moves(t, n);
    assert(unit > 0) by (nonlinear_arith)
        requires
            s == 134_217_728,
            unit == s * s * s * s,
    ;
    let (a, b) = (exact::smooth(t), exact::smooth(u));
    let g = b - a;
    assert(g * unit == b * unit - a * unit) by (nonlinear_arith)
        requires
            g == b - a,
    ;
    let top = 2 * n + 22;
    assert(top * unit == (2 * n) * unit + 22 * unit) by (nonlinear_arith)
        requires
            top == 2 * n + 22,
    ;
    assert(-22 < g < top) by (nonlinear_arith)
        requires
            -(22 * unit) < g * unit < top * unit,
            unit > 0,
    ;
}

/// Two numbers at most `k` apart.
pub open spec fn within(a: int, b: int, k: int) -> bool {
    -k <= a - b <= k
}

/// A change of the weight by up to `e` steps changes a blend of ends at most
/// `d` cells apart by up to `d * e`.
proof fn lemma_blend_weight_change(a: int, b: int, u: int, w: int, d: int, e: int)
    requires
        0 <= u <= ONE,
        0 <= w <= ONE,
        within(u, w, e),
        0 <= d <= 4,
        -d * ONE <= b - a <= d * ONE,
    ensures
        within(exact::blend(a, b, u), exact::blend(a, b, w), d * e),
{
    let s = ONE as int;
    let g = b - a;
    let top = d * e;
    assert(-(top * s) <= u * g - w * g <= top * s) by {
        assert(-d * s == -(d * s)) by (nonlinear_arith);
        let m = d * s;
        assert(u * g - w * g == (u - w) * g) by (nonlinear_arith);
        assert(-(e * m) <= (u - w) * g <= e * m) by (nonlinear_arith)
            requires
                -e <= u - w <= e,
                -m <= g <= m,
        ;
        assert(e * m == top * s) by (nonlinear_arith)
            requires
                m == d * s,
                top == d * e,
        ;
    }
    assert(d * s <= 4 * s) by (nonlinear_arith)
        requires
            d <= 4,
            s > 0,
    ;
    assert(-d * s == -(d * s)) by (nonlinear_arith);
    fixed::lemma_product_shrinks(u, g);
    fixed::lemma_product_shrinks(w, g);
    assert((u * g >= 0 && w * g >= 0) || (u * g <= 0 && w * g <= 0)) by (nonlinear_arith)
        requires
            u >= 0,
            w >= 0,
    ;
    assert(-(top * s) == (-top) * s) by (nonlinear_arith);
    lemma_truncated_change(w * g, u * g, -top, top);
}

/// A change of both ends by up to `k` steps changes a blend by up to
/// `k + 1`.
proof fn lemma_blend_ends_change(a: int, b: int, a1: int, b1: int, u: int, k: int)
    requires
        0 <= u <= ONE,
        within(a, a1, k),
        within(b, b1, k),
        math::fits_i32(b - a),
        math::fits_i32(b1 - a1),
    ensures
        within(exact::blend(a, b, u), exact::blend(a1, b1, u), k + 1),
{
    let s = ONE as int;
    let (g, g1) = (b - a, b1 - a1);
    fixed::lemma_product_shrinks(u, g);
    fixed::lemma_product_shrinks(u, g1);
    fixed::lemma_product_is_truncated(u, g);
    fixed::lemma_product_is_truncated(u, g1);
    let (p, p1) = (fixed::product(u, g), fixed::product(u, g1));
    assert(fixed::times(u, g) == p && fixed::times(u, g1) == p1);
    assert(-s < u * g - p * s < s && -s < u * g1 - p1 * s < s);
    // a s + u g = a (s - u) + b u
    assert(u * g - u * g1 == u * (b - b1) - u * (a - a1)) by (nonlinear_arith)
        requires
            g == b - a,
            g1 == b1 - a1,
    ;
    assert(-(k * u) <= u * (b - b1) <= k * u) by (nonlinear_arith)
        requires
            u >= 0,
            -k <= b - b1 <= k,
    ;
    assert(-(k * (s - u)) <= (s - u) * (a - a1) <= k * (s - u)) by (nonlinear_arith)
        requires
            s - u >= 0,
            -k <= a - a1 <= k,
    ;
    assert((s - u) * (a - a1) == (a - a1) * s - u * (a - a1)) by (nonlinear_arith);
    assert(k * (s - u) + k * u == k * s) by (nonlinear_arith);
    let d = (a + p) - (a1 + p1);
    assert(d * s == (a - a1) * s + p * s - p1 * s) by (nonlinear_arith)
        requires
            d == (a + p) - (a1 + p1),
    ;
    assert(-(k + 1) <= d <= k + 1) by (nonlinear_arith)
        requires
            -(k * s) - 2 * s < d * s < k * s + 2 * s,
            s > 0,
    ;
}

/// A position at most a cell on is a later offset in the same cell, or an
/// offset in the next.
proof fn lemma_position_on(p: int, n: int)
    requires
        0 <= n <= ONE,
    ensures
        ({
            let (l, on) = (Lat::at(p), Lat::at(p + n));
            &&& l.wf()
            &&& l.frac + n < ONE ==> on == (Lat { cell: l.cell, frac: (l.frac + n) as i32 })
            &&& l.frac + n >= ONE ==> on == (Lat {
                cell: exact::neighbour(l.cell, 1),
                frac: (l.frac + n - ONE) as i32,
            })
        }),
{
    let (q, r) = (p / 134_217_728, p % 134_217_728);
    if r + n < ONE {
        assert((p + n) / 134_217_728 == q && (p + n) % 134_217_728 == r + n);
    } else {
        assert((p + n) / 134_217_728 == q + 1 && (p + n) % 134_217_728 == r + n - ONE);
        assert(math::wrap_i32(q + 1) == math::wrap_i32(math::wrap_i32(q) + 1));
    }
}

/// Within a cell, value noise changes by at most twice what the interpolant
/// does, and a step.
proof fn lemma_value_in_cell(cell: i32, t: int, u: int, l: Lat, seed: u32, e: int)
    requires
        0 <= t <= ONE,
        0 <= u <= ONE,
        within(exact::smooth(t), exact::smooth(u), e),
        l.wf(),
    ensures
        ({
            let (a, b) = (Lat { cell, frac: t as i32 }, Lat { cell, frac: u as i32 });
            &&& within(
                exact::value_noise(a, l, seed),
                exact::value_noise(b, l, seed),
                2 * e + 1,
            )
            &&& within(
                exact::value_noise(l, a, seed),
                exact::value_noise(l, b, seed),
                2 * e + 1,
            )
        }),
{
    let (i, j) = (l.cell, exact::neighbour(l.cell, 1));
    let c1 = exact::neighbour(cell, 1);
    lemma_bilinear_moves(
        exact::point_value(cell, i, seed),
        exact::point_value(c1, i, seed),
        exact::point_value(cell, j, seed),
        exact::point_value(c1, j, seed),
        t,
        u,
        l.frac as int,
        e,
    );
    lemma_bilinear_moves(
        exact::point_value(i, cell, seed),
        exact::point_value(j, cell, seed),
        exact::point_value(i, c1, seed),
        exact::point_value(j, c1, seed),
        t,
        u,
        l.frac as int,
        e,
    );
}

/// With corners of at most one in magnitude, a move along an axis changes
/// their blend by at most twice what the interpolant does, and a step.
proof fn lemma_bilinear_moves(
    n00: int,
    n10: int,
    n01: int,
    n11: int,
    t: int,
    u: int,
    f: int,
    e: int,
)
    requires
        -ONE <= n00 <= ONE,
        -ONE <= n10 <= ONE,
        -ONE <= n01 <= ONE,
        -ONE <= n11 <= ONE,
        0 <= t <= ONE,
        0 <= u <= ONE,
        within(exact::smooth(t), exact::smooth(u), e),
        0 <= f <= ONE,
    ensures
        within(
            exact::bilinear(n00, n10, n01, n11, t, f),
            exact::bilinear(n00, n10, n01, n11, u, f),
            2 * e + 1,
        ),
        within(
            exact::bilinear(n00, n10, n01, n11, f, t),
            exact::bilinear(n00, n10, n01, n11, f, u),
            2 * e + 1,
        ),
{
    reveal(exact::bilinear);
    exact::lemma_smooth_in_unit(t);
    exact::lemma_smooth_in_unit(u);
    exact::lemma_smooth_in_unit(f);
    let (a, b, v) = (exact::smooth(t), exact::smooth(u), exact::smooth(f));
    let (lo, hi) = (-ONE as int, ONE as int);
    // Along the first axis.
    lemma_blend_weight_change(n00, n10, a, b, 2, e);
    lemma_blend_weight_change(n01, n11, a, b, 2, e);
    exact::lemma_blend_in_range(n00, n10, a, lo, hi);
    exact::lemma_blend_in_range(n01, n11, a, lo, hi);
    exact::lemma_blend_in_range(n00, n10, b, lo, hi);
    exact::lemma_blend_in_range(n01, n11, b, lo, hi);
    lemma_blend_ends_change(
        exact::blend(n00, n10, a),
        exact::blend(n01, n11, a),
        exact::blend(n00, n10, b),
        exact::blend(n01, n11, b),
        v,
        2 * e,
    );
    // Along the second.
    exact::lemma_blend_in_range(n00, n10, v, lo, hi);
    exact::lemma_blend_in_range(n01, n11, v, lo, hi);
    lemma_blend_weight_change(exact::blend(n00, n10, v), exact::blend(n01, n11, v), a, b, 2, e);
}

/// Value noise is continuous: a step along an axis changes it by at most 61
/// steps, across cell borders too.
pub proof fn lemma_value_continuous(p: int, l: Lat, seed: u32)
    requires
        l.wf(),
    ensures
        within(
            exact::value_noise(Lat::at(p), l, seed),
            exact::value_noise(Lat::at(p + 1), l, seed),
            61,
        ),
        within(
            exact::value_noise(l, Lat::at(p), seed),
            exact::value_noise(l, Lat::at(p + 1), seed),
            61,
        ),
{
    let a = Lat::at(p);
    let t = a.frac as int;
    lemma_position_on(p, 1);
    lemma_smooth_step(t);
    lemma_value_in_cell(a.cell, t, t + 1, l, seed, 30);
    lemma_value_borders(a.cell, l, seed);
}

/// Over `n` steps along an axis, value noise changes by at most `4n + 86`
/// steps.
pub proof fn lemma_value_moves(p: int, n: int, l: Lat, seed: u32)
    requires
        0 <= n <= ONE,
        l.wf(),
    ensures
        within(
            exact::value_noise(Lat::at(p), l, seed),
            exact::value_noise(Lat::at(p + n), l, seed),
            4 * n + 86,
        ),
        within(
            exact::value_noise(l, Lat::at(p), seed),
            exact::value_noise(l, Lat::at(p + n), seed),
            4 * n + 86,
        ),
{
    let (a, s) = (Lat::at(p), ONE as int);
    let t = a.frac as int;
    lemma_position_on(p, n);
    if t + n < s {
        lemma_smooth_moves(t, t + n);
        lemma_value_in_cell(a.cell, t, t + n, l, seed, 2 * n + 21);
    } else {
        let u = t + n - s;
        lemma_smooth_moves(t, s);
        lemma_smooth_moves(0, u);
        lemma_value_in_cell(a.cell, t, s, l, seed, 2 * (s - t) + 21);
        lemma_value_borders(a.cell, l, seed);
        lemma_value_in_cell(exact::neighbour(a.cell, 1), 0, u, l, seed, 2 * u + 21);
    }
}

/// A gradient dotted with an offset changes by at most what the offset does
/// along an axis.
proof fn lemma_slope_moves(ix: i32, iy: i32, seed: u32, dx: int, ex: int, dy: int)
    requires
        -ONE <= dx <= ex <= ONE,
        -ONE <= dy <= ONE,
    ensures
        within(
            exact::point_slope(ix, iy, seed, dx, dy),
            exact::point_slope(ix, iy, seed, ex, dy),
            ex - dx,
        ),
        within(
            exact::point_slope(ix, iy, seed, dy, dx),
            exact::point_slope(ix, iy, seed, dy, ex),
            ex - dx,
        ),
{
    reveal(exact::point_slope);
    let (gx, gy) = exact::direction(hash::hashed2(ix, iy, seed));
    ranges::lemma_component(gx, dx);
    ranges::lemma_component(gx, ex);
    ranges::lemma_component(gy, dx);
    ranges::lemma_component(gy, ex);
}

/// Within a cell, gradient noise changes along the first axis by at most
/// what the offset does, three times what the interpolant does, and two
/// steps.
proof fn lemma_gradient_in_cell_x(cell: i32, t: int, u: int, l: Lat, seed: u32, e: int)
    requires
        0 <= t <= u <= ONE,
        within(exact::smooth(t), exact::smooth(u), e),
        l.wf(),
    ensures
        within(
            exact::gradient_noise(Lat { cell, frac: t as i32 }, l, seed),
            exact::gradient_noise(Lat { cell, frac: u as i32 }, l, seed),
            u - t + 3 * e + 2,
        ),
{
    let (i, j) = (l.cell, exact::neighbour(l.cell, 1));
    let c1 = exact::neighbour(cell, 1);
    let (s, f) = (ONE as int, l.frac as int);
    lemma_slope_moves(cell, i, seed, t, u, f);
    lemma_slope_moves(c1, i, seed, t - s, u - s, f);
    lemma_slope_moves(cell, j, seed, t, u, f - s);
    lemma_slope_moves(c1, j, seed, t - s, u - s, f - s);
    ranges::lemma_slope_magnitude(cell, i, seed, t, f);
    ranges::lemma_slope_magnitude(c1, i, seed, t - s, f);
    ranges::lemma_slope_magnitude(cell, j, seed, t, f - s);
    ranges::lemma_slope_magnitude(c1, j, seed, t - s, f - s);
    ranges::lemma_slope_magnitude(cell, i, seed, u, f);
    ranges::lemma_slope_magnitude(c1, i, seed, u - s, f);
    ranges::lemma_slope_magnitude(cell, j, seed, u, f - s);
    ranges::lemma_slope_magnitude(c1, j, seed, u - s, f - s);
    lemma_moving_corners_x(
        seq![
            exact::point_slope(cell, i, seed, t, f),
            exact::point_slope(c1, i, seed, t - s, f),
            exact::point_slope(cell, j, seed, t, f - s),
            exact::point_slope(c1, j, seed, t - s, f - s),
        ],
        seq![
            exact::point_slope(cell, i, seed, u, f),
            exact::point_slope(c1, i, seed, u - s, f),
            exact::point_slope(cell, j, seed, u, f - s),
            exact::point_slope(c1, j, seed, u - s, f - s),
        ],
        t,
        u,
        f,
        e,
    );
}

/// The same along the second axis.
proof fn lemma_gradient_in_cell_y(cell: i32, t: int, u: int, l: Lat, seed: u32, e: int)
    requires
        0 <= t <= u <= ONE,
        within(exact::smooth(t), exact::smooth(u), e),
        l.wf(),
    ensures
        within(
            exact::gradient_noise(l, Lat { cell, frac: t as i32 }, seed),
            exact::gradient_noise(l, Lat { cell, frac: u as i32 }, seed),
            u - t + 3 * e + 2,
        ),
{
    let (i, j) = (l.cell, exact::neighbour(l.cell, 1));
    let c1 = exact::neighbour(cell, 1);
    let (s, f) = (ONE as int, l.frac as int);
    lemma_slope_moves(i, cell, seed, t, u, f);
    lemma_slope_moves(j, cell, seed, t, u, f - s);
    lemma_slope_moves(i, c1, seed, t - s, u - s, f);
    lemma_slope_moves(j, c1, seed, t - s, u - s, f - s);
    ranges::lemma_slope_magnitude(i, cell, seed, f, t);
    ranges::lemma_slope_magnitude(j, cell, seed, f - s, t);
    ranges::lemma_slope_magnitude(i, c1, seed, f, t - s);
    ranges::lemma_slope_magnitude(j, c1, seed, f - s, t - s);
    ranges::lemma_slope_magnitude(i, cell, seed, f, u);
    ranges::lemma_slope_magnitude(j, cell, seed, f - s, u);
    ranges::lemma_slope_magnitude(i, c1, seed, f, u - s);
    ranges::lemma_slope_magnitude(j, c1, seed, f - s, u - s);
    lemma_moving_corners_y(
        seq![
            exact::point_slope(i, cell, seed, f, t),
            exact::point_slope(j, cell, seed, f - s, t),
            exact::point_slope(i, c1, seed, f, t - s),
            exact::point_slope(j, c1, seed, f - s, t - s),
        ],
        seq![
            exact::point_slope(i, cell, seed, f, u),
            exact::point_slope(j, cell, seed, f - s, u),
            exact::point_slope(i, c1, seed, f, u - s),
            exact::point_slope(j, c1, seed, f - s, u - s),
        ],
        f,
        t,
        u,
        e,
    );
}

/// Four corner values at offsets `x` and `y` into the cell: each is at most
/// as large as its corner is far away.
spec fn cornered(n: Seq<int>, x: int, y: int) -> bool {
    &&& n.len() == 4
    &&& -(x + y) <= n[0] <= x + y
    &&& -(ONE - x + y) <= n[1] <= ONE - x + y
    &&& -(x + ONE - y) <= n[2] <= x + ONE - y
    &&& -(2 * ONE - x - y) <= n[3] <= 2 * ONE - x - y
}

/// Each of four corner values at most `k` away from another four.
spec fn corners_within(n: Seq<int>, m: Seq<int>, k: int) -> bool {
    &&& within(n[0], m[0], k)
    &&& within(n[1], m[1], k)
    &&& within(n[2], m[2], k)
    &&& within(n[3], m[3], k)
}

proof fn lemma_moving_corners_x(n: Seq<int>, m: Seq<int>, t: int, u: int, f: int, e: int)
    requires
        0 <= t <= u <= ONE,
        0 <= f <= ONE,
        cornered(n, t, f),
        cornered(m, u, f),
        corners_within(n, m, u - t),
        within(exact::smooth(t), exact::smooth(u), e),
    ensures
        within(
            exact::bilinear(n[0], n[1], n[2], n[3], t, f),
            exact::bilinear(m[0], m[1], m[2], m[3], u, f),
            u - t + 3 * e + 2,
        ),
{
    reveal(exact::bilinear);
    exact::lemma_smooth_in_unit(t);
    exact::lemma_smooth_in_unit(u);
    exact::lemma_smooth_in_unit(f);
    let (a, b, v) = (exact::smooth(t), exact::smooth(u), exact::smooth(f));
    let (lo, hi) = (-2 * ONE, 2 * ONE);
    lemma_moving_edge(n[0], n[1], m[0], m[1], a, b, u - t, e);
    lemma_moving_edge(n[2], n[3], m[2], m[3], a, b, u - t, e);
    exact::lemma_blend_in_range(n[0], n[1], a, lo, hi);
    exact::lemma_blend_in_range(n[2], n[3], a, lo, hi);
    exact::lemma_blend_in_range(m[0], m[1], b, lo, hi);
    exact::lemma_blend_in_range(m[2], m[3], b, lo, hi);
    lemma_blend_ends_change(
        exact::blend(n[0], n[1], a),
        exact::blend(n[2], n[3], a),
        exact::blend(m[0], m[1], b),
        exact::blend(m[2], m[3], b),
        v,
        u - t + 3 * e + 1,
    );
}

/// Both ends of an edge move by up to `k` steps, and the weight by up to `e`.
proof fn lemma_moving_edge(a: int, b: int, a1: int, b1: int, u: int, w: int, k: int, e: int)
    requires
        0 <= u <= ONE,
        0 <= w <= ONE,
        within(u, w, e),
        -3 * ONE <= b - a <= 3 * ONE,
        -3 * ONE <= b1 - a1 <= 3 * ONE,
        within(a, a1, k),
        within(b, b1, k),
    ensures
        within(exact::blend(a, b, u), exact::blend(a1, b1, w), k + 3 * e + 1),
{
    lemma_blend_ends_change(a, b, a1, b1, u, k);
    lemma_blend_weight_change(a1, b1, u, w, 3, e);
}

proof fn lemma_moving_corners_y(n: Seq<int>, m: Seq<int>, f: int, t: int, u: int, e: int)
    requires
        0 <= t <= u <= ONE,
        0 <= f <= ONE,
        cornered(n, f, t),
        cornered(m, f, u),
        corners_within(n, m, u - t),
        within(exact::smooth(t), exact::smooth(u), e),
    ensures
        within(
            exact::bilinear(n[0], n[1], n[2], n[3], f, t),
            exact::bilinear(m[0], m[1], m[2], m[3], f, u),
            u - t + 3 * e + 2,
        ),
{
    reveal(exact::bilinear);
    exact::lemma_smooth_in_unit(t);
    exact::lemma_smooth_in_unit(u);
    exact::lemma_smooth_in_unit(f);
    let (a, b, v) = (exact::smooth(t), exact::smooth(u), exact::smooth(f));
    let s = ONE as int;
    exact::lemma_blend_in_range(n[0], n[1], v, -(s + t), s + t);
    exact::lemma_blend_in_range(n[2], n[3], v, -(2 * s - t), 2 * s - t);
    exact::lemma_blend_in_range(m[0], m[1], v, -(s + u), s + u);
    exact::lemma_blend_in_range(m[2], m[3], v, -(2 * s - u), 2 * s - u);
    lemma_blend_ends_change(n[0], n[1], m[0], m[1], v, u - t);
    lemma_blend_ends_change(n[2], n[3], m[2], m[3], v, u - t);
    lemma_moving_edge(
        exact::blend(n[0], n[1], v),
        exact::blend(n[2], n[3], v),
        exact::blend(m[0], m[1], v),
        exact::blend(m[2], m[3], v),
        a,
        b,
        u - t + 1,
        e,
    );
}

/// Gradient noise is continuous: a step along an axis changes it by at most
/// 93 steps, across cell borders too.
pub proof fn lemma_gradient_continuous(p: int, l: Lat, seed: u32)
    requires
        l.wf(),
    ensures
        within(
            exact::gradient_noise(Lat::at(p), l, seed),
            exact::gradient_noise(Lat::at(p + 1), l, seed),
            93,
        ),
        within(
            exact::gradient_noise(l, Lat::at(p), seed),
            exact::gradient_noise(l, Lat::at(p + 1), seed),
            93,
        ),
{
    let a = Lat::at(p);
    let t = a.frac as int;
    lemma_position_on(p, 1);
    lemma_smooth_step(t);
    lemma_gradient_in_cell_x(a.cell, t, t + 1, l, seed, 30);
    lemma_gradient_in_cell_y(a.cell, t, t + 1, l, seed, 30);
    lemma_gradient_borders(a.cell, l, seed);
}

/// Over `n` steps along an axis, gradient noise changes by at most
/// `7n + 130` steps.
pub proof fn lemma_gradient_moves(p: int, n: int, l: Lat, seed: u32)
    requires
        0 <= n <= ONE,
        l.wf(),
    ensures
        within(
            exact::gradient_noise(Lat::at(p), l, seed),
            exact::gradient_noise(Lat::at(p + n), l, seed),
            7 * n + 130,
        ),
        within(
            exact::gradient_noise(l, Lat::at(p), seed),
            exact::gradient_noise(l, Lat::at(p + n), seed),
            7 * n + 130,
        ),
{
    let (a, s) = (Lat::at(p), ONE as int);
    let t = a.frac as int;
    lemma_position_on(p, n);
    if t + n < s {
        let e = 2 * n + 21;
        lemma_smooth_moves(t, t + n);
        lemma_gradient_in_cell_x(a.cell, t, t + n, l, seed, e);
        lemma_gradient_in_cell_y(a.cell, t, t + n, l, seed, e);
    } else {
        let u = t + n - s;
        let (e, next) = (2 * (s - t) + 21, exact::neighbour(a.cell, 1));
        lemma_smooth_moves(t, s);
        lemma_smooth_moves(0, u);
        lemma_gradient_in_cell_x(a.cell, t, s, l, seed, e);
        lemma_gradient_in_cell_y(a.cell, t, s, l, seed, e);
        lemma_gradient_borders(a.cell, l, seed);
        lemma_gradient_in_cell_x(next, 0, u, l, seed, 2 * u + 21);
        lemma_gradient_in_cell_y(next, 0, u, l, seed, 2 * u + 21);
    }
}

} // verus!
