//! Where cellular noise is continuous.
//!
//! Cellular noise looks for the nearest feature point among the nine cells
//! around a coordinate. Where the distance it finds is below one cell, no
//! point outside those nine is nearer, so it is the distance to the nearest
//! point of all, and that changes by no more than the coordinate moves. Two
//! truncations and a root come on top, which matter next to a feature point.

use vstd::prelude::*;

use crate::exact;
use crate::exact::Lat;
use crate::fixed;
use crate::fixed::ONE;
use crate::hash;
use crate::lattice;
use crate::math;
use crate::ranges;
use crate::smoothness;

verus! {

/// The feature point of a cell, in steps.
pub open spec fn feature_point(cx: int, cy: int, seed: u32) -> (int, int) {
    let (ix, iy) = (math::wrap_i32(cx) as i32, math::wrap_i32(cy) as i32);
    (
        cx * ONE + exact::jitter(hash::hashed2(ix, iy, seed)),
        cy * ONE + exact::jitter(hash::hashed3(ix, iy, 1, seed)),
    )
}

/// The square of the distance between two points, in squared steps.
pub open spec fn square_apart(p: (int, int), q: (int, int)) -> int {
    (p.0 - q.0) * (p.0 - q.0) + (p.1 - q.1) * (p.1 - q.1)
}

/// Cellular noise at a point of the plane.
pub open spec fn worley_at(p: (int, int), seed: u32) -> int {
    exact::worley_noise(Lat::at(p.0), Lat::at(p.1), seed)
}

/// A feature point lies in its cell.
proof fn lemma_point_in_cell(cx: int, cy: int, seed: u32)
    ensures
        ({
            let f = feature_point(cx, cy, seed);
            &&& cx * ONE <= f.0 < cx * ONE + ONE
            &&& cy * ONE <= f.1 < cy * ONE + ONE
        }),
{
}

/// A neighbouring cell, around the end of the lattice.
proof fn lemma_neighbour_at(x: int, o: int)
    requires
        -1 <= o <= 1,
    ensures
        exact::neighbour(Lat::at(x).cell, o) == math::wrap_i32(x / (ONE as int) + o) as i32,
        o * ONE - Lat::at(x).frac == (x / (ONE as int) + o) * ONE - x,
        Lat::at(x).wf(),
{
    lattice::lemma_at_stands_for(x);
    let c = x / 134_217_728;
    assert(math::wrap_i32(math::wrap_i32(c) + o) == math::wrap_i32(c + o));
    assert((c + o) * ONE == c * ONE + o * ONE) by (nonlinear_arith);
}

/// The squared distance that the search computes for a cell is the real one,
/// each of its two squares truncated.
proof fn lemma_distance_close(p: (int, int), seed: u32, ox: int, oy: int)
    requires
        -1 <= ox <= 1,
        -1 <= oy <= 1,
    ensures
        ({
            let f = feature_point(p.0 / (ONE as int) + ox, p.1 / (ONE as int) + oy, seed);
            let d2 = exact::feature_distance2(Lat::at(p.0), Lat::at(p.1), seed, ox, oy);
            square_apart(f, p) - 2 * ONE < d2 * ONE <= square_apart(f, p)
        }),
{
    let (cx, cy) = (p.0 / (ONE as int) + ox, p.1 / (ONE as int) + oy);
    let f = feature_point(cx, cy, seed);
    lemma_neighbour_at(p.0, ox);
    lemma_neighbour_at(p.1, oy);
    let (dx, dy) = (f.0 - p.0, f.1 - p.1);
    let (ix, iy) = (math::wrap_i32(cx) as i32, math::wrap_i32(cy) as i32);
    assert(dx == ox * ONE + exact::jitter(hash::hashed2(ix, iy, seed)) - Lat::at(p.0).frac);
    assert(dy == oy * ONE + exact::jitter(hash::hashed3(ix, iy, 1, seed)) - Lat::at(p.1).frac);
    exact::lemma_square_bounds(dx);
    exact::lemma_square_bounds(dy);
    assert(dx * dx >= 0 && dy * dy >= 0) by (nonlinear_arith);
    lemma_square_product(dx);
    lemma_square_product(dy);
}

/// A square of a distance of at most two cells does not wrap.
proof fn lemma_square_product(d: int)
    requires
        -2 * ONE <= d <= 2 * ONE,
    ensures
        fixed::times(d, d) * ONE <= d * d < fixed::times(d, d) * ONE + ONE,
{
    assert(0 <= d * d <= 0x0100_0000_0000_0000) by (nonlinear_arith)
        requires
            -0x1000_0000 <= d <= 0x1000_0000,
    ;
    fixed::lemma_product_is_truncated(d, d);
}

/// A feature point lies in its cell where the hash puts it: as far along it
/// as the hash is along 2^32, cut to 23 bits.
pub proof fn lemma_jitter_is_scaled_hash(h: u32)
    ensures
        0 <= h - 32 * exact::jitter(h) < 512,
        0 <= exact::jitter(h) < ONE,
        exact::jitter(h) % 16 == 0,
{
}

/// Cellular noise is the distance to the feature point of one of the nine
/// cells around a position, rounded down, and no point of the nine is nearer.
pub proof fn lemma_worley_root(p: (int, int), seed: u32) -> (c: (int, int))
    ensures
        -1 <= c.0 - p.0 / (ONE as int) <= 1,
        -1 <= c.1 - p.1 / (ONE as int) <= 1,
        ({
            let r = worley_at(p, seed);
            let f = feature_point(c.0, c.1, seed);
            &&& 0 <= r
            &&& r * r <= square_apart(f, p) < (r + 1) * (r + 1) + 2 * ONE
        }),
        forall|ox: int, oy: int|
            -1 <= ox <= 1 && -1 <= oy <= 1 ==> worley_at(p, seed) * worley_at(p, seed)
                <= square_apart(
                #[trigger] feature_point(
                    p.0 / (ONE as int) + ox,
                    p.1 / (ONE as int) + oy,
                    seed,
                ),
                p,
            ),
{
    let (lx, ly) = (Lat::at(p.0), Lat::at(p.1));
    lattice::lemma_at_stands_for(p.0);
    lattice::lemma_at_stands_for(p.1);
    ranges::lemma_worley_nearest(lx, ly, seed);
    ranges::lemma_worley_range(lx, ly, seed);
    let best = exact::least_distance2(lx, ly, seed, 9);
    let r = worley_at(p, seed);
    let (ox, oy) = choose|ox: int, oy: int|
        -1 <= ox <= 1 && -1 <= oy <= 1 && best == #[trigger] exact::feature_distance2(
            lx,
            ly,
            seed,
            ox,
            oy,
        );
    ranges::lemma_feature_distance_range(lx, ly, seed, ox, oy);
    math::lemma_floor_sqrt_exists((best * ONE) as nat);
    lemma_distance_close(p, seed, ox, oy);
    assert forall|ox: int, oy: int| -1 <= ox <= 1 && -1 <= oy <= 1 implies r * r <= square_apart(
        #[trigger] feature_point(p.0 / (ONE as int) + ox, p.1 / (ONE as int) + oy, seed),
        p,
    ) by {
        lemma_distance_close(p, seed, ox, oy);
        assert(best <= exact::feature_distance2(lx, ly, seed, ox, oy));
    }
    (p.0 / (ONE as int) + ox, p.1 / (ONE as int) + oy)
}

/// A distance below one cell is at most the distance to any feature point at
/// all, near or far.
pub proof fn lemma_nearest_of_all(p: (int, int), seed: u32, cx: int, cy: int)
    requires
        worley_at(p, seed) <= ONE,
    ensures
        worley_at(p, seed) * worley_at(p, seed) <= square_apart(
            feature_point(cx, cy, seed),
            p,
        ),
{
    let r = worley_at(p, seed);
    let f = feature_point(cx, cy, seed);
    let _ = lemma_worley_root(p, seed);
    lemma_point_in_cell(cx, cy, seed);
    let (ox, oy) = (cx - p.0 / (ONE as int), cy - p.1 / (ONE as int));
    if -1 <= ox <= 1 && -1 <= oy <= 1 {
        assert(f == feature_point(p.0 / (ONE as int) + ox, p.1 / (ONE as int) + oy, seed));
    } else {
        let (dx, dy) = (f.0 - p.0, f.1 - p.1);
        assert(dx >= ONE || dx <= -ONE || dy >= ONE || dy <= -ONE);
        assert(r * r <= dx * dx + dy * dy) by (nonlinear_arith)
            requires
                0 <= r <= ONE,
                dx >= ONE || dx <= -ONE || dy >= ONE || dy <= -ONE,
        ;
    }
}

/// What rounding adds to a distance of `r`, in steps: less than 16386 in any
/// case, and little away from the feature point.
pub open spec fn root_slack(r: int) -> int {
    let s = ONE as int / (r + 1) + 2;
    if s < 16_386 {
        s
    } else {
        16_386
    }
}

/// The slack covers both truncations and the root.
proof fn lemma_root_slack(r: int)
    requires
        r >= 0,
    ensures
        (r + 1) * (r + 1) + 2 * ONE <= (r + root_slack(r)) * (r + root_slack(r)),
        root_slack(r) >= 2,
{
    let k = root_slack(r) - 1;
    let n = r + 1;
    if root_slack(r) == 16_386 {
        assert(2 * ONE <= k * k) by (nonlinear_arith)
            requires
                k == 16_385,
                ONE == 134_217_728,
        ;
        assert(n * n + 2 * ONE <= (n + k) * (n + k)) by (nonlinear_arith)
            requires
                2 * ONE <= k * k,
                n >= 0,
                k >= 0,
        ;
    } else {
        vstd::arithmetic::div_mod::lemma_fundamental_div_mod(ONE as int, n);
        vstd::arithmetic::div_mod::lemma_mod_bound(ONE as int, n);
        vstd::arithmetic::div_mod::lemma_div_pos_is_pos(ONE as int, n);
        assert(ONE <= n * k) by (nonlinear_arith)
            requires
                ONE == n * (k - 1) + (ONE as int) % n,
                (ONE as int) % n < n,
        ;
        assert(n * n + 2 * ONE <= (n + k) * (n + k)) by (nonlinear_arith)
            requires
                ONE <= n * k,
                n >= 0,
        ;
    }
}

/// The triangle inequality, for a distance bounded by `a` and a move of `d`
/// steps along the axes.
proof fn lemma_triangle(f: (int, int), p: (int, int), q: (int, int), a: int, r: int)
    requires
        a >= 0,
        r >= 0,
        square_apart(f, p) <= a * a,
        r * r <= square_apart(f, q),
    ensures
        r <= a + smoothness::apart(p, q),
{
    let (x, y) = (f.0 - p.0, f.1 - p.1);
    let (u, v) = (p.0 - q.0, p.1 - q.1);
    let (du, dv) = (smoothness::distance(u), smoothness::distance(v));
    let d = du + dv;
    // Each coordinate is at most the distance.
    assert(-a <= x <= a && -a <= y <= a) by (nonlinear_arith)
        requires
            x * x + y * y <= a * a,
            a >= 0,
    ;
    assert(x * u <= a * du) by (nonlinear_arith)
        requires
            -a <= x <= a,
            du == u || du == -u,
            du >= 0,
    ;
    assert(y * v <= a * dv) by (nonlinear_arith)
        requires
            -a <= y <= a,
            dv == v || dv == -v,
            dv >= 0,
    ;
    assert((x + u) * (x + u) + (y + v) * (y + v) == (x * x + y * y) + 2 * (x * u + y * v) + (u * u
        + v * v)) by (nonlinear_arith);
    assert(u * u + v * v <= d * d) by (nonlinear_arith)
        requires
            d == du + dv,
            du == u || du == -u,
            dv == v || dv == -v,
            du >= 0,
            dv >= 0,
    ;
    assert(a * du + a * dv == a * d) by (nonlinear_arith)
        requires
            d == du + dv,
    ;
    assert((a + d) * (a + d) == a * a + 2 * (a * d) + d * d) by (nonlinear_arith);
    assert(x + u == f.0 - q.0 && y + v == f.1 - q.1);
    let e = a + d;
    assert(r <= e) by (nonlinear_arith)
        requires
            r * r <= e * e,
            r >= 0,
            e >= 0,
    ;
}

/// Cellular noise is continuous where it is below one cell: between two
/// points it rises by at most the steps between them, and the slack of the
/// distance that it rises from.
pub proof fn lemma_worley_rise(p: (int, int), q: (int, int), seed: u32)
    requires
        worley_at(q, seed) <= ONE,
    ensures
        worley_at(q, seed) <= worley_at(p, seed) + smoothness::apart(p, q) + root_slack(
            worley_at(p, seed),
        ),
{
    let (a, r) = (worley_at(p, seed), worley_at(q, seed));
    let c = lemma_worley_root(p, seed);
    let f = feature_point(c.0, c.1, seed);
    lemma_root_slack(a);
    lemma_nearest_of_all(q, seed, c.0, c.1);
    let _ = lemma_worley_root(q, seed);
    lemma_triangle(f, p, q, a + root_slack(a), r);
}

/// Cellular noise is continuous: where it is below one cell at both of two
/// points, it differs between them by at most the steps between them, and
/// the slack of the smaller distance.
pub proof fn lemma_worley_continuous(p: (int, int), q: (int, int), seed: u32)
    requires
        worley_at(p, seed) <= ONE,
        worley_at(q, seed) <= ONE,
    ensures
        ({
            let (a, b) = (worley_at(p, seed), worley_at(q, seed));
            let least = if a < b {
                a
            } else {
                b
            };
            smoothness::distance(a - b) <= smoothness::apart(p, q) + root_slack(least)
        }),
{
    lemma_worley_rise(p, q, seed);
    lemma_worley_rise(q, p, seed);
    let _ = lemma_worley_root(p, seed);
    let _ = lemma_worley_root(q, seed);
    lemma_root_slack(worley_at(p, seed));
    lemma_root_slack(worley_at(q, seed));
}

} // verus!
