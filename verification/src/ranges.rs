//! What the noise stays within.
//!
//! The interpolant is a chain of truncated products, so bounds that are
//! clean in real arithmetic hold here up to a few steps of 2^-27, and the
//! laws say exactly how few.

use vstd::prelude::*;

use crate::exact;
use crate::exact::Lat;
use crate::fixed;
use crate::fixed::ONE;
use crate::hash;
use crate::lattice;
use crate::math;
use crate::noise::Basis;
use crate::quintic;

verus! {

/// By how many steps of 2^-27 gradient noise may leave `[-1, 1]`.
pub open spec fn gradient_slack() -> int {
    40
}

/// Up to the middle of the cell the interpolant is at most one step above
/// one half, and from there on it is at most 20 steps below.
pub proof fn lemma_smooth_halves(t: int)
    requires
        0 <= t <= ONE,
    ensures
        2 * t <= ONE ==> exact::smooth(t) <= ONE / 2 + 1,
        2 * t >= ONE ==> exact::smooth(t) >= ONE / 2 - 20,
{
    let s = ONE as int;
    let r = exact::smooth(t);
    let q = quintic::quintic(t, s);
    let unit = s * s * s * s;
    exact::lemma_smooth_in_unit(t);
    quintic::lemma_quintic_halves(t, s);
    let h = s / 2;
    assert(s * s * s * s * s == 2 * (h * unit)) by (nonlinear_arith)
        requires
            s == 2 * h,
            unit == s * s * s * s,
    ;
    assert(unit > 0) by (nonlinear_arith)
        requires
            s > 0,
            unit == s * s * s * s,
    ;
    if 2 * t <= s {
        assert(r <= h + 1) by (nonlinear_arith)
            requires
                r * unit <= h * unit + unit,
                unit > 0,
        ;
    }
    if 2 * t >= s {
        assert(r > h - 21) by (nonlinear_arith)
            requires
                r * unit > h * unit - 21 * unit,
                unit > 0,
        ;
    }
}

/// The offset from the nearer corner, as the interpolant weighs the two
/// corners of an edge, is on average at most half a cell, up to 20 steps.
proof fn lemma_edge_mean(x: int, u: int)
    requires
        0 <= x <= ONE,
        u == exact::smooth(x),
    ensures
        x * (ONE - u) + (ONE - x) * u <= ONE * (ONE / 2 + 20),
{
    let s = ONE as int;
    let h = s / 2;
    lemma_smooth_halves(x);
    assert(x * (s - u) + (s - x) * u == x * s + u * (s - 2 * x)) by (nonlinear_arith);
    if 2 * x <= s {
        assert(u * (s - 2 * x) <= (h + 1) * (s - 2 * x)) by (nonlinear_arith)
            requires
                u <= h + 1,
                2 * x <= s,
        ;
        assert(x * s + (h + 1) * (s - 2 * x) == h * s + (s - 2 * x)) by (nonlinear_arith)
            requires
                s == 2 * h,
        ;
    } else {
        assert(u * (s - 2 * x) <= (h - 20) * (s - 2 * x)) by (nonlinear_arith)
            requires
                u >= h - 20,
                2 * x >= s,
        ;
        assert(x * s + (h - 20) * (s - 2 * x) == h * s + 20 * (2 * x - s)) by (nonlinear_arith)
            requires
                s == 2 * h,
        ;
    }
}

/// A blend is no larger than the weighted mean of its ends' bounds, rounded
/// up.
proof fn lemma_blend_magnitude(a: int, b: int, u: int, ma: int, mb: int)
    requires
        0 <= u <= ONE,
        -ma <= a <= ma,
        -mb <= b <= mb,
        math::fits_i32(b - a),
    ensures
        -(ma * (ONE - u) + mb * u + ONE) < exact::blend(a, b, u) * ONE < ma * (ONE - u) + mb * u
            + ONE,
{
    let s = ONE as int;
    let d = b - a;
    fixed::lemma_product_shrinks(u, d);
    fixed::lemma_product_is_truncated(u, d);
    let p = fixed::product(u, d);
    assert(fixed::times(u, d) == p);
    assert(u * d == u * b - u * a) by (nonlinear_arith)
        requires
            d == b - a,
    ;
    assert(u * d >= 0 || u * d <= 0);
    assert(-s < u * d - p * s < s);
    assert((a + p) * s == a * s + p * s) by (nonlinear_arith);
    assert(a * s - u * a == a * (s - u)) by (nonlinear_arith);
    assert(-(ma * (s - u)) <= a * (s - u) <= ma * (s - u)) by (nonlinear_arith)
        requires
            -ma <= a <= ma,
            s - u >= 0,
    ;
    assert(-(mb * u) <= u * b <= mb * u) by (nonlinear_arith)
        requires
            -mb <= b <= mb,
            u >= 0,
    ;
}

/// A gradient dotted with an offset is at most the sum of the offset's
/// magnitudes.
pub proof fn lemma_slope_magnitude(ix: i32, iy: i32, seed: u32, dx: int, dy: int)
    requires
        -ONE <= dx <= ONE,
        -ONE <= dy <= ONE,
    ensures
        ({
            let m = fixed::magnitude_of(dx) + fixed::magnitude_of(dy);
            -m <= exact::point_slope(ix, iy, seed, dx, dy) <= m
        }),
{
    reveal(exact::point_slope);
    let (gx, gy) = exact::direction(hash::hashed2(ix, iy, seed));
    lemma_component(gx, dx);
    lemma_component(gy, dy);
}

/// A component of a gradient passes an offset on, drops it or negates it.
pub proof fn lemma_component(g: int, d: int)
    requires
        g == 0 || g == ONE || g == -ONE,
        -ONE <= d <= ONE,
    ensures
        g == 0 ==> fixed::times(g, d) == 0,
        g == ONE ==> fixed::times(g, d) == d,
        g == -ONE ==> fixed::times(g, d) == -d,
{
    fixed::lemma_product_identity(d);
}

/// Gradient noise stays within `[-1, 1]`, up to the slack that truncation
/// leaves.
pub proof fn lemma_gradient_range(lx: Lat, ly: Lat, seed: u32)
    requires
        lx.wf(),
        ly.wf(),
    ensures
        -(ONE + gradient_slack()) <= exact::gradient_noise(lx, ly, seed) <= ONE
            + gradient_slack(),
{
    reveal(exact::bilinear);
    let s = ONE as int;
    let h = s / 2;
    let (ix, iy) = (lx.cell, ly.cell);
    let (jx, jy) = (exact::neighbour(ix, 1), exact::neighbour(iy, 1));
    let (x, y) = (lx.frac as int, ly.frac as int);
    let (u, v) = (exact::smooth(x), exact::smooth(y));
    exact::lemma_smooth_in_unit(x);
    exact::lemma_smooth_in_unit(y);
    lemma_slope_magnitude(ix, iy, seed, x, y);
    lemma_slope_magnitude(jx, iy, seed, x - s, y);
    lemma_slope_magnitude(ix, jy, seed, x, y - s);
    lemma_slope_magnitude(jx, jy, seed, x - s, y - s);
    let n00 = exact::point_slope(ix, iy, seed, x, y);
    let n10 = exact::point_slope(jx, iy, seed, x - s, y);
    let n01 = exact::point_slope(ix, jy, seed, x, y - s);
    let n11 = exact::point_slope(jx, jy, seed, x - s, y - s);
    lemma_edge_mean(x, u);
    lemma_edge_mean(y, v);
    let near = exact::blend(n00, n10, u);
    let far = exact::blend(n01, n11, u);
    lemma_edge_blend(n00, n10, x, u, y);
    lemma_edge_blend(n01, n11, x, u, s - y);
    let r = exact::blend(near, far, v);
    lemma_edge_blend(near, far, y, v, h + 20);
}

/// Two ends that are bounded by `x + e` and `1 - x + e` blend to at most
/// `1/2 + e`, up to 20 steps.
proof fn lemma_edge_blend(a: int, b: int, x: int, u: int, e: int)
    requires
        0 <= x <= ONE,
        u == exact::smooth(x),
        0 <= e <= ONE,
        -(x + e) <= a <= x + e,
        -(ONE - x + e) <= b <= ONE - x + e,
    ensures
        -(ONE / 2 + 20 + e) <= exact::blend(a, b, u) <= ONE / 2 + 20 + e,
{
    let s = ONE as int;
    let h = s / 2;
    exact::lemma_smooth_in_unit(x);
    lemma_edge_mean(x, u);
    lemma_blend_magnitude(a, b, u, x + e, s - x + e);
    assert((x + e) * (s - u) + (s - x + e) * u == x * (s - u) + (s - x) * u + e * s)
        by (nonlinear_arith);
    let r = exact::blend(a, b, u);
    let m = h + 20 + e;
    assert(s * (h + 20) + e * s == m * s) by (nonlinear_arith)
        requires
            m == h + 20 + e,
    ;
    assert(-m <= r <= m) by (nonlinear_arith)
        requires
            -(m * s + s) < r * s < m * s + s,
            s > 0,
    ;
}

/// Value noise stays within `[-1, 1)`.
pub proof fn lemma_value_range(lx: Lat, ly: Lat, seed: u32)
    requires
        lx.wf(),
        ly.wf(),
    ensures
        -ONE <= exact::value_noise(lx, ly, seed) < ONE,
{
    reveal(exact::bilinear);
    let (ix, iy) = (lx.cell, ly.cell);
    let (jx, jy) = (exact::neighbour(ix, 1), exact::neighbour(iy, 1));
    let (u, v) = (exact::smooth(lx.frac as int), exact::smooth(ly.frac as int));
    exact::lemma_smooth_in_unit(lx.frac as int);
    exact::lemma_smooth_in_unit(ly.frac as int);
    let (lo, hi) = (-ONE as int, ONE - 1);
    let n00 = exact::point_value(ix, iy, seed);
    let n10 = exact::point_value(jx, iy, seed);
    let n01 = exact::point_value(ix, jy, seed);
    let n11 = exact::point_value(jx, jy, seed);
    exact::lemma_blend_in_range(n00, n10, u, lo, hi);
    exact::lemma_blend_in_range(n01, n11, u, lo, hi);
    exact::lemma_blend_in_range(
        exact::blend(n00, n10, u),
        exact::blend(n01, n11, u),
        v,
        lo,
        hi,
    );
}

/// The squared distance to a feature point of the neighbourhood is between
/// zero and eight, and that to the cell's own is below two.
pub proof fn lemma_feature_distance_range(lx: Lat, ly: Lat, seed: u32, ox: int, oy: int)
    requires
        lx.wf(),
        ly.wf(),
        -1 <= ox <= 1,
        -1 <= oy <= 1,
    ensures
        0 <= exact::feature_distance2(lx, ly, seed, ox, oy) <= 8 * ONE,
        ox == 0 && oy == 0 ==> exact::feature_distance2(lx, ly, seed, ox, oy) < 2 * ONE,
{
    let (cx, cy) = (exact::neighbour(lx.cell, ox), exact::neighbour(ly.cell, oy));
    let dx = ox * ONE + exact::jitter(hash::hashed2(cx, cy, seed)) - lx.frac;
    let dy = oy * ONE + exact::jitter(hash::hashed3(cx, cy, 1, seed)) - ly.frac;
    exact::lemma_square_bounds(dx);
    exact::lemma_square_bounds(dy);
}

/// The least of the first `n` distances is at most each of them and is one
/// of them, or the bound that the search starts from.
proof fn lemma_least_of(lx: Lat, ly: Lat, seed: u32, n: nat)
    requires
        lx.wf(),
        ly.wf(),
        n <= 9,
    ensures
        forall|i: int|
            0 <= i < n ==> exact::least_distance2(lx, ly, seed, n)
                <= #[trigger] exact::feature_distance2(lx, ly, seed, i % 3 - 1, i / 3 - 1),
        exact::least_distance2(lx, ly, seed, n) == 15 * ONE || exists|i: int|
            0 <= i < n && exact::least_distance2(lx, ly, seed, n)
                == #[trigger] exact::feature_distance2(lx, ly, seed, i % 3 - 1, i / 3 - 1),
        n >= 5 ==> exact::least_distance2(lx, ly, seed, n) < 2 * ONE,
        0 <= exact::least_distance2(lx, ly, seed, n),
    decreases n,
{
    if n > 0 {
        let m = (n - 1) as nat;
        lemma_least_of(lx, ly, seed, m);
        lemma_feature_distance_range(lx, ly, seed, m as int % 3 - 1, m as int / 3 - 1);
    }
}

/// Worley noise looks at the nearest feature point of the neighbourhood:
/// no other of the nine is nearer.
pub proof fn lemma_worley_nearest(lx: Lat, ly: Lat, seed: u32)
    requires
        lx.wf(),
        ly.wf(),
    ensures
        forall|ox: int, oy: int|
            -1 <= ox <= 1 && -1 <= oy <= 1 ==> exact::least_distance2(lx, ly, seed, 9)
                <= #[trigger] exact::feature_distance2(lx, ly, seed, ox, oy),
        exists|ox: int, oy: int|
            -1 <= ox <= 1 && -1 <= oy <= 1 && exact::least_distance2(lx, ly, seed, 9)
                == #[trigger] exact::feature_distance2(lx, ly, seed, ox, oy),
{
    lemma_least_of(lx, ly, seed, 9);
    let least = exact::least_distance2(lx, ly, seed, 9);
    assert forall|ox: int, oy: int| -1 <= ox <= 1 && -1 <= oy <= 1 implies least
        <= #[trigger] exact::feature_distance2(lx, ly, seed, ox, oy) by {
        let i = 3 * (oy + 1) + ox + 1;
        assert(i % 3 - 1 == ox && i / 3 - 1 == oy);
        assert(least <= exact::feature_distance2(lx, ly, seed, i % 3 - 1, i / 3 - 1));
    }
}

/// Worley noise is a distance: it is not negative, and it stays below one
/// and a half cells.
pub proof fn lemma_worley_range(lx: Lat, ly: Lat, seed: u32)
    requires
        lx.wf(),
        ly.wf(),
    ensures
        0 <= exact::worley_noise(lx, ly, seed),
        2 * exact::worley_noise(lx, ly, seed) < 3 * ONE,
{
    lemma_least_of(lx, ly, seed, 9);
    let best = exact::least_distance2(lx, ly, seed, 9);
    let r = exact::worley_noise(lx, ly, seed);
    math::lemma_floor_sqrt_exists((best * ONE) as nat);
    assert(2 * r < 3 * ONE) by (nonlinear_arith)
        requires
            r * r <= best * ONE,
            best < 2 * ONE,
            r >= 0,
    ;
}

/// The least value of a basis.
pub open spec fn basis_floor(b: Basis) -> int {
    match b {
        Basis::Value => -ONE as int,
        Basis::Gradient => -(ONE + gradient_slack()),
        Basis::Worley => -ONE as int,
    }
}

/// The greatest value of a basis.
pub open spec fn basis_ceiling(b: Basis) -> int {
    match b {
        Basis::Value => ONE as int,
        Basis::Gradient => ONE + gradient_slack(),
        Basis::Worley => 2 * ONE,
    }
}

/// A basis stays within its range.
pub proof fn lemma_basis_range(b: Basis, lx: Lat, ly: Lat, seed: u32)
    requires
        lx.wf(),
        ly.wf(),
    ensures
        basis_floor(b) <= exact::basis_noise(b, lx, ly, seed) <= basis_ceiling(b),
{
    match b {
        Basis::Value => lemma_value_range(lx, ly, seed),
        Basis::Gradient => lemma_gradient_range(lx, ly, seed),
        Basis::Worley => lemma_worley_range(lx, ly, seed),
    }
}

/// A value in a range around zero, weighted by an amplitude, is in the range
/// weighted by it.
proof fn lemma_weighted(amp: int, v: int, lo: int, hi: int)
    requires
        0 <= amp <= ONE,
        lo <= v <= hi,
        -2 * ONE <= lo <= 0,
        0 <= hi <= 2 * ONE,
    ensures
        lo * amp <= fixed::times(amp, v) * ONE <= hi * amp,
{
    fixed::lemma_product_shrinks(amp, v);
    fixed::lemma_product_is_truncated(amp, v);
    assert(lo * amp <= amp * v <= hi * amp) by (nonlinear_arith)
        requires
            0 <= amp,
            lo <= v <= hi,
    ;
    assert(lo * amp <= 0 <= hi * amp) by (nonlinear_arith)
        requires
            0 <= amp,
            lo <= 0 <= hi,
    ;
}

/// A sum of weighted values in a range, scaled by the reciprocal of the
/// weights' sum, is in the range: the normalisation undoes the weights.
proof fn lemma_normalised(sum: int, octaves: u32, lo: int, hi: int)
    requires
        ({
            let norm = fixed::amplitude_sum(fixed::octave_count(octaves));
            lo * norm <= sum * ONE <= hi * norm
        }),
        -2 * ONE <= lo <= 0,
        0 <= hi <= 2 * ONE,
    ensures
        lo <= fixed::times(sum, exact::norm_recip(octaves)) <= hi,
{
    let s = ONE as int;
    let norm = fixed::amplitude_sum(fixed::octave_count(octaves));
    fixed::lemma_amplitude_sum_bounds(fixed::octave_count(octaves));
    exact::lemma_norm_recip(octaves);
    let r = exact::norm_recip(octaves);
    vstd::arithmetic::div_mod::lemma_fundamental_div_mod(s * s, norm);
    vstd::arithmetic::div_mod::lemma_mod_bound(s * s, norm);
    assert(norm * r <= s * s);
    // sum * r * s <= hi * norm * r <= hi * s * s
    assert((sum * s) * r <= (hi * norm) * r) by (nonlinear_arith)
        requires
            sum * s <= hi * norm,
            r >= 0,
    ;
    assert((lo * norm) * r <= (sum * s) * r) by (nonlinear_arith)
        requires
            lo * norm <= sum * s,
            r >= 0,
    ;
    assert((hi * norm) * r <= hi * (s * s)) by (nonlinear_arith)
        requires
            norm * r <= s * s,
            hi >= 0,
    ;
    assert(lo * (s * s) <= (lo * norm) * r) by (nonlinear_arith)
        requires
            norm * r <= s * s,
            lo <= 0,
    ;
    let p = sum * r;
    assert(lo * s <= p <= hi * s) by (nonlinear_arith)
        requires
            lo * (s * s) <= (sum * s) * r,
            (sum * s) * r <= hi * (s * s),
            p == sum * r,
            s > 0,
    ;
    fixed::lemma_product_is_truncated(sum, r);
}

/// A fractal sum of values in a range is in the range weighted by the
/// amplitudes.
pub proof fn lemma_fractal_sum_range(b: Basis, lx: Lat, ly: Lat, seed: u32, n: nat)
    ensures
        ({
            let norm = fixed::amplitude_sum(n);
            basis_floor(b) * norm <= exact::fractal_sum(b, lx, ly, seed, n) * ONE
                <= basis_ceiling(b) * norm
        }),
    decreases n,
{
    let (lo, hi) = (basis_floor(b), basis_ceiling(b));
    if n == 0 {
        assert(lo * 0 == 0 && hi * 0 == 0) by (nonlinear_arith);
    } else {
        let o = (n - 1) as nat;
        lemma_fractal_sum_range(b, lx, ly, seed, o);
        fixed::lemma_amplitude_step(o);
        lattice::lemma_at_stands_for(vstd::arithmetic::power2::pow2(o) * lx.position());
        lattice::lemma_at_stands_for(vstd::arithmetic::power2::pow2(o) * ly.position());
        lemma_basis_range(
            b,
            exact::octave(lx, o),
            exact::octave(ly, o),
            exact::octave_seed(seed, o),
        );
        let amp = fixed::amplitude(o);
        lemma_weighted(amp, exact::octave_noise(b, lx, ly, seed, o), lo, hi);
        let before = fixed::amplitude_sum(o);
        assert(lo * (before + amp) == lo * before + lo * amp) by (nonlinear_arith);
        assert(hi * (before + amp) == hi * before + hi * amp) by (nonlinear_arith);
    }
}

/// Normalising keeps a fractal sum in the basis's own range, however many
/// octaves it has.
pub proof fn lemma_fractal_range(b: Basis, lx: Lat, ly: Lat, octaves: u32, seed: u32)
    ensures
        basis_floor(b) <= exact::fractal_noise(
            b,
            lx,
            ly,
            octaves,
            seed,
            exact::norm_recip(octaves),
        ) <= basis_ceiling(b),
{
    reveal(exact::fractal_noise);
    let n = fixed::octave_count(octaves);
    lemma_fractal_sum_range(b, lx, ly, seed, n);
    lemma_normalised(
        exact::fractal_sum(b, lx, ly, seed, n),
        octaves,
        basis_floor(b),
        basis_ceiling(b),
    );
}

/// The least value of a ridge over a basis. Where the basis leaves
/// `[-1, 1]`, the ridge falls below zero.
pub open spec fn ridge_floor(b: Basis) -> int {
    match b {
        Basis::Value => 0,
        Basis::Gradient => -gradient_slack(),
        Basis::Worley => -ONE as int,
    }
}

/// Sharpening keeps a ridge in its range.
proof fn lemma_sharpened_range(r: int, k: nat, lo: int)
    requires
        -ONE <= lo <= 0,
        lo <= r <= ONE,
    ensures
        lo <= exact::sharpened(r, k) <= ONE,
        r < 0 ==> exact::sharpened(r, k) <= -lo,
    decreases k,
{
    if k > 1 {
        lemma_sharpened_range(r, (k - 1) as nat, lo);
        let p = exact::sharpened(r, (k - 1) as nat);
        fixed::lemma_product_shrinks(p, r);
        fixed::lemma_product_shrinks(r, p);
        fixed::lemma_product_commutes(r, p);
    }
}

/// A ridged sum of values in a range is in the range weighted by the
/// amplitudes.
pub proof fn lemma_ridged_sum_range(b: Basis, lx: Lat, ly: Lat, sharpness: u32, seed: u32, n: nat)
    ensures
        ({
            let norm = fixed::amplitude_sum(n);
            ridge_floor(b) * norm <= exact::ridged_sum(b, lx, ly, sharpness, seed, n) * ONE <= ONE
                * norm
        }),
    decreases n,
{
    let (lo, hi) = (ridge_floor(b), ONE as int);
    if n == 0 {
        assert(lo * 0 == 0 && hi * 0 == 0) by (nonlinear_arith);
    } else {
        let o = (n - 1) as nat;
        lemma_ridged_sum_range(b, lx, ly, sharpness, seed, o);
        fixed::lemma_amplitude_step(o);
        lattice::lemma_at_stands_for(vstd::arithmetic::power2::pow2(o) * lx.position());
        lattice::lemma_at_stands_for(vstd::arithmetic::power2::pow2(o) * ly.position());
        lemma_basis_range(
            b,
            exact::octave(lx, o),
            exact::octave(ly, o),
            exact::octave_seed(seed, o),
        );
        let r = exact::ridge(exact::octave_noise(b, lx, ly, seed, o));
        lemma_sharpened_range(r, sharpness as nat, lo);
        let amp = fixed::amplitude(o);
        lemma_weighted(amp, exact::octave_ridge(b, lx, ly, sharpness, seed, o), lo, hi);
        let before = fixed::amplitude_sum(o);
        assert(lo * (before + amp) == lo * before + lo * amp) by (nonlinear_arith);
        assert(hi * (before + amp) == hi * before + hi * amp) by (nonlinear_arith);
    }
}

/// A ridged sum runs from zero to one where the basis stays in `[-1, 1]`:
/// exactly so for value noise, and up to the slack for gradient noise.
pub proof fn lemma_ridged_range(
    b: Basis,
    lx: Lat,
    ly: Lat,
    octaves: u32,
    sharpness: u32,
    seed: u32,
)
    ensures
        ridge_floor(b) <= exact::ridged_noise(
            b,
            lx,
            ly,
            octaves,
            sharpness,
            seed,
            exact::norm_recip(octaves),
        ) <= ONE,
{
    reveal(exact::ridged_noise);
    let n = fixed::octave_count(octaves);
    lemma_ridged_sum_range(b, lx, ly, sharpness, seed, n);
    lemma_normalised(
        exact::ridged_sum(b, lx, ly, sharpness, seed, n),
        octaves,
        ridge_floor(b),
        ONE as int,
    );
}

} // verus!
