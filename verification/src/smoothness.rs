//! How far a move changes the fractal sums built on continuous noise.
//!
//! An octave at twice the frequency moves twice as fast and counts half as
//! much, so every octave contributes the same, and a sum of `n` of them
//! changes `n` times as fast as one. Rounding adds a jump however short the
//! move, which a sum weighs like any other value: few steps for value and
//! gradient noise, and more for cellular noise next to a feature point.
//! Cellular noise takes part where it is continuous: where the distance it
//! finds is at most a cell.

use vstd::arithmetic::power2::*;
use vstd::prelude::*;

use crate::cellular;
use crate::continuity;
use crate::exact;
use crate::exact::{Lat, Prepared};
use crate::fixed;
use crate::fixed::ONE;
use crate::lattice;
use crate::material::Material;
use crate::math;
use crate::noise::Basis;
use crate::ranges;

verus! {

/// How many steps a basis changes by, at most, for a step, beside its
/// [`jump`].
pub open spec fn slope(b: Basis) -> int {
    match b {
        Basis::Value => 4,
        Basis::Gradient => 7,
        Basis::Worley => 2,
    }
}

/// How many steps a basis changes by, at most, however short the move: what
/// rounding does.
pub open spec fn jump(b: Basis) -> int {
    match b {
        Basis::Value => 172,
        Basis::Gradient => 260,
        Basis::Worley => 32_772,
    }
}

/// A basis is continuous where it has this value. Cellular noise is, where
/// the distance it stands for is at most a cell.
pub open spec fn calm(b: Basis, v: int) -> bool {
    b is Worley ==> v <= ONE
}

/// The first `n` octaves are continuous at a coordinate.
pub open spec fn settled(b: Basis, lx: Lat, ly: Lat, seed: u32, n: nat) -> bool {
    forall|o: nat| o < n ==> calm(b, #[trigger] exact::octave_noise(b, lx, ly, seed, o))
}

/// `|n|`.
pub open spec fn distance(n: int) -> int {
    if n < 0 {
        -n
    } else {
        n
    }
}

/// How far apart two points are, in steps along the axes.
pub open spec fn apart(p: (int, int), q: (int, int)) -> int {
    distance(p.0 - q.0) + distance(p.1 - q.1)
}

/// A basis at a point of the plane.
pub open spec fn basis_at(b: Basis, p: (int, int), seed: u32) -> int {
    exact::basis_noise(b, Lat::at(p.0), Lat::at(p.1), seed)
}

/// At most a cell along one axis: half of the jump.
proof fn lemma_basis_along(b: Basis, x: int, n: int, l: Lat, seed: u32)
    requires
        !(b is Worley),
        0 <= n <= ONE,
        l.wf(),
    ensures
        2 * distance(
            exact::basis_noise(b, Lat::at(x), l, seed) - exact::basis_noise(
                b,
                Lat::at(x + n),
                l,
                seed,
            ),
        ) <= 2 * (slope(b) * n) + jump(b),
        2 * distance(
            exact::basis_noise(b, l, Lat::at(x), seed) - exact::basis_noise(
                b,
                l,
                Lat::at(x + n),
                seed,
            ),
        ) <= 2 * (slope(b) * n) + jump(b),
{
    if b is Value {
        continuity::lemma_value_moves(x, n, l, seed);
    } else {
        continuity::lemma_gradient_moves(x, n, l, seed);
    }
}

/// A basis changes by at most its slope for each step between two points,
/// and its jump.
pub proof fn lemma_basis_moves(b: Basis, p: (int, int), q: (int, int), seed: u32)
    requires
        calm(b, basis_at(b, p, seed)),
        calm(b, basis_at(b, q, seed)),
    ensures
        distance(basis_at(b, p, seed) - basis_at(b, q, seed)) <= slope(b) * apart(p, q) + jump(
            b,
        ),
{
    if b is Worley {
        cellular::lemma_worley_continuous(p, q, seed);
    } else {
        lemma_smooth_basis_moves(b, p, q, seed);
    }
}

/// Value and gradient noise: along one axis and then along the other, or all
/// the way across their range.
#[verifier::rlimit(40)]
proof fn lemma_smooth_basis_moves(b: Basis, p: (int, int), q: (int, int), seed: u32)
    requires
        !(b is Worley),
    ensures
        distance(basis_at(b, p, seed) - basis_at(b, q, seed)) <= slope(b) * apart(p, q) + jump(b),
{
    lattice::lemma_at_stands_for(p.0);
    lattice::lemma_at_stands_for(p.1);
    lattice::lemma_at_stands_for(q.0);
    lattice::lemma_at_stands_for(q.1);
    let (m, n) = (distance(p.0 - q.0), distance(p.1 - q.1));
    if m > ONE / 2 || n > ONE / 2 {
        ranges::lemma_basis_range(b, Lat::at(p.0), Lat::at(p.1), seed);
        ranges::lemma_basis_range(b, Lat::at(q.0), Lat::at(q.1), seed);
    } else {
        if p.0 <= q.0 {
            lemma_basis_along(b, p.0, m, Lat::at(p.1), seed);
        } else {
            lemma_basis_along(b, q.0, m, Lat::at(p.1), seed);
        }
        if p.1 <= q.1 {
            lemma_basis_along(b, p.1, n, Lat::at(q.0), seed);
        } else {
            lemma_basis_along(b, q.1, n, Lat::at(q.0), seed);
        }
    }
}

/// An octave of the coordinate of a position is the coordinate of the
/// position's octave.
pub proof fn lemma_octave_at(x: int, o: nat)
    ensures
        exact::octave(Lat::at(x), o) == Lat::at(pow2(o) * x),
{
    let k = lattice::lemma_at_stands_for(x);
    let u = pow2(o) as int;
    let y = Lat::at(x).position();
    assert(u * x == u * y + (u * k) * lattice::period()) by (nonlinear_arith)
        requires
            x == y + k * lattice::period(),
    ;
    lattice::lemma_at_periodic(u * y, u * k);
}

/// The basis at octave `o`, at two points.
proof fn lemma_octave_moves(b: Basis, p: (int, int), q: (int, int), seed: u32, o: nat)
    requires
        calm(b, exact::octave_noise(b, Lat::at(p.0), Lat::at(p.1), seed, o)),
        calm(b, exact::octave_noise(b, Lat::at(q.0), Lat::at(q.1), seed, o)),
    ensures
        distance(
            exact::octave_noise(b, Lat::at(p.0), Lat::at(p.1), seed, o) - exact::octave_noise(
                b,
                Lat::at(q.0),
                Lat::at(q.1),
                seed,
                o,
            ),
        ) <= (slope(b) * apart(p, q)) * pow2(o) + jump(b),
{
    let u = pow2(o) as int;
    lemma_pow2_pos(o);
    lemma_octave_at(p.0, o);
    lemma_octave_at(p.1, o);
    lemma_octave_at(q.0, o);
    lemma_octave_at(q.1, o);
    let (up, uq) = ((u * p.0, u * p.1), (u * q.0, u * q.1));
    lemma_basis_moves(b, up, uq, exact::octave_seed(seed, o));
    lemma_distance_scales(p.0, q.0, u);
    lemma_distance_scales(p.1, q.1, u);
    let (s, d) = (slope(b), apart(p, q));
    assert(s * apart(up, uq) == (s * d) * u) by (nonlinear_arith)
        requires
            apart(up, uq) == u * distance(p.0 - q.0) + u * distance(p.1 - q.1),
            d == distance(p.0 - q.0) + distance(p.1 - q.1),
    ;
}

proof fn lemma_distance_scales(a: int, b: int, u: int)
    requires
        u > 0,
    ensures
        distance(u * a - u * b) == u * distance(a - b),
{
    assert(u * a - u * b == u * (a - b)) by (nonlinear_arith);
    assert(a - b < 0 ==> u * (a - b) < 0) by (nonlinear_arith)
        requires
            u > 0,
    ;
    assert(a - b >= 0 ==> u * (a - b) >= 0) by (nonlinear_arith)
        requires
            u > 0,
    ;
    assert(u * (-(a - b)) == -(u * (a - b))) by (nonlinear_arith);
}

/// Truncated products of a factor of at most one change by at most what the
/// other factor does, and a step.
#[verifier::rlimit(40)]
proof fn lemma_product_moves(a: int, v: int, w: int, d: int)
    requires
        -ONE <= a <= ONE,
        distance(a * v - a * w) <= d * ONE,
        -16 * ONE < v < 16 * ONE,
        -16 * ONE < w < 16 * ONE,
    ensures
        distance(fixed::times(a, v) - fixed::times(a, w)) <= d + 1,
{
    fixed::lemma_product_shrinks(a, v);
    fixed::lemma_product_shrinks(a, w);
    fixed::lemma_product_is_truncated(a, v);
    fixed::lemma_product_is_truncated(a, w);
    let (x, y) = (fixed::product(a, v), fixed::product(a, w));
    let s = ONE as int;
    assert(-s < a * v - x * s < s && -s < a * w - y * s < s);
    assert((x - y) * s == x * s - y * s) by (nonlinear_arith);
    let e = x - y;
    assert(-(d + 1) <= e <= d + 1) by (nonlinear_arith)
        requires
            -(d * s) - 2 * s < e * s < d * s + 2 * s,
            s > 0,
    ;
}

/// A weighted octave: the weight makes up for the speed, and weighs a jump.
#[verifier::rlimit(40)]
proof fn lemma_weighted_moves(o: nat, v: int, w: int, d: int, j: int)
    requires
        distance(v - w) <= d * pow2(o) + j,
        -3 * ONE <= v <= 3 * ONE,
        -3 * ONE <= w <= 3 * ONE,
        d >= 0,
        j >= 0,
    ensures
        ({
            let amp = fixed::amplitude(o);
            let c = if o < 28 {
                d + 2
            } else {
                0
            };
            distance(fixed::times(amp, v) - fixed::times(amp, w)) * ONE <= c * ONE + j * amp
        }),
{
    let amp = fixed::amplitude(o);
    fixed::lemma_amplitude_step(o);
    fixed::lemma_amplitude_sum(o);
    if o < 28 {
        let s = ONE as int;
        let u = pow2(o) as int;
        lemma_pow2_pos(o);
        vstd::arithmetic::div_mod::lemma_fundamental_div_mod(s, u);
        vstd::arithmetic::div_mod::lemma_mod_bound(s, u);
        assert(0 <= amp * u <= s) by (nonlinear_arith)
            requires
                s == u * amp + s % u,
                s % u >= 0,
                amp >= 0,
                u > 0,
        ;
        let e = d * u + j;
        assert(-(amp * e) <= amp * (v - w) <= amp * e) by (nonlinear_arith)
            requires
                -e <= v - w <= e,
                amp >= 0,
        ;
        assert(amp * e <= d * s + j * amp) by (nonlinear_arith)
            requires
                e == d * u + j,
                amp * u <= s,
                d >= 0,
        ;
        assert(amp * v - amp * w == amp * (v - w)) by (nonlinear_arith);
        fixed::lemma_product_shrinks(amp, v);
        fixed::lemma_product_shrinks(amp, w);
        fixed::lemma_product_is_truncated(amp, v);
        fixed::lemma_product_is_truncated(amp, w);
        let (x, y) = (fixed::product(amp, v), fixed::product(amp, w));
        assert(-s < amp * v - x * s < s && -s < amp * w - y * s < s);
        assert((x - y) * s == x * s - y * s && (y - x) * s == y * s - x * s) by (nonlinear_arith);
        assert((d + 2) * s == d * s + 2 * s) by (nonlinear_arith);
    } else {
        fixed::lemma_product_identity(v);
        fixed::lemma_product_identity(w);
        assert(j * 0 == 0) by (nonlinear_arith);
    }
}

/// The weighted terms of two sums add up.
proof fn lemma_terms_add(n: nat, x: int, y: int, d: int, j: int, before: int)
    requires
        n > 0,
        distance(x) * ONE <= (counting((n - 1) as nat) * (d + 2)) * ONE + j * before,
        ({
            let amp = fixed::amplitude((n - 1) as nat);
            let c = if n - 1 < 28 {
                d + 2
            } else {
                0
            };
            distance(y) * ONE <= c * ONE + j * amp
        }),
        before == fixed::amplitude_sum((n - 1) as nat),
    ensures
        distance(x + y) * ONE <= (counting(n) * (d + 2)) * ONE + j * fixed::amplitude_sum(n),
{
    let amp = fixed::amplitude((n - 1) as nat);
    assert(j * (before + amp) == j * before + j * amp) by (nonlinear_arith);
    if n - 1 < 28 {
        let m = n - 1;
        assert((m + 1) * (d + 2) == m * (d + 2) + (d + 2)) by (nonlinear_arith);
    }
}

/// A change stated in weighted steps, in steps.
proof fn lemma_change_in_steps(x: int, c: int, j: int, norm: int)
    requires
        distance(x) * ONE <= c * ONE + j * norm,
        0 <= norm < 2 * ONE,
        j >= 0,
    ensures
        distance(x) <= c + 2 * j,
{
    assert(j * norm <= (2 * j) * ONE) by (nonlinear_arith)
        requires
            0 <= norm < 2 * ONE,
            j >= 0,
    ;
    assert(c * ONE + (2 * j) * ONE == (c + 2 * j) * ONE) by (nonlinear_arith);
}

/// The octaves that count: after 28 halvings the amplitude is zero.
pub open spec fn counting(n: nat) -> int {
    if n < 28 {
        n as int
    } else {
        28
    }
}

/// The sum of `n` octaves, at two points.
proof fn lemma_fractal_sum_moves(b: Basis, p: (int, int), q: (int, int), seed: u32, n: nat)
    requires
        settled(b, Lat::at(p.0), Lat::at(p.1), seed, n),
        settled(b, Lat::at(q.0), Lat::at(q.1), seed, n),
    ensures
        distance(
            exact::fractal_sum(b, Lat::at(p.0), Lat::at(p.1), seed, n) - exact::fractal_sum(
                b,
                Lat::at(q.0),
                Lat::at(q.1),
                seed,
                n,
            ),
        ) * ONE <= (counting(n) * (slope(b) * apart(p, q) + 2)) * ONE + jump(b)
            * fixed::amplitude_sum(n),
    decreases n,
{
    let d = slope(b) * apart(p, q);
    if n == 0 {
        assert(0 * (d + 2) == 0 && jump(b) * 0 == 0) by (nonlinear_arith);
    } else {
        let o = (n - 1) as nat;
        lemma_fractal_sum_moves(b, p, q, seed, o);
        let v = exact::octave_noise(b, Lat::at(p.0), Lat::at(p.1), seed, o);
        let w = exact::octave_noise(b, Lat::at(q.0), Lat::at(q.1), seed, o);
        assert(calm(b, v) && calm(b, w));
        lemma_octave_moves(b, p, q, seed, o);
        lemma_octave_bounded(b, Lat::at(p.0), Lat::at(p.1), seed, o);
        lemma_octave_bounded(b, Lat::at(q.0), Lat::at(q.1), seed, o);
        assert(d >= 0) by (nonlinear_arith)
            requires
                d == slope(b) * apart(p, q),
                slope(b) >= 0,
                apart(p, q) >= 0,
        ;
        lemma_weighted_moves(o, v, w, d, jump(b));
        let amp = fixed::amplitude(o);
        lemma_terms_add(
            n,
            exact::fractal_sum(b, Lat::at(p.0), Lat::at(p.1), seed, o) - exact::fractal_sum(
                b,
                Lat::at(q.0),
                Lat::at(q.1),
                seed,
                o,
            ),
            fixed::times(amp, v) - fixed::times(amp, w),
            d,
            jump(b),
            fixed::amplitude_sum(o),
        );
    }
}

/// An octave stays within the basis's range.
pub proof fn lemma_octave_bounded(b: Basis, lx: Lat, ly: Lat, seed: u32, o: nat)
    ensures
        ranges::basis_floor(b) <= exact::octave_noise(b, lx, ly, seed, o)
            <= ranges::basis_ceiling(b),
{
    lattice::lemma_at_stands_for(pow2(o) * lx.position());
    lattice::lemma_at_stands_for(pow2(o) * ly.position());
    ranges::lemma_basis_range(
        b,
        exact::octave(lx, o),
        exact::octave(ly, o),
        exact::octave_seed(seed, o),
    );
}

/// How many steps a fractal sum of `octaves` octaves changes by, at most,
/// between points `d` steps apart.
pub open spec fn fractal_change(b: Basis, octaves: u32, d: int) -> int {
    counting(fixed::octave_count(octaves)) * (slope(b) * d + 2) + 2 * jump(b) + 1
}

/// A normalised sum changes by at most what the sum does, and a step.
proof fn lemma_normalised_moves(x: int, y: int, octaves: u32, d: int)
    requires
        -8 * ONE <= x <= 8 * ONE,
        -8 * ONE <= y <= 8 * ONE,
        distance(x - y) <= d,
    ensures
        distance(
            fixed::times(x, exact::norm_recip(octaves)) - fixed::times(
                y,
                exact::norm_recip(octaves),
            ),
        ) <= d + 1,
{
    exact::lemma_norm_recip(octaves);
    let r = exact::norm_recip(octaves);
    assert(r * x - r * y == r * (x - y)) by (nonlinear_arith);
    assert(-(d * ONE) <= r * (x - y) <= d * ONE) by (nonlinear_arith)
        requires
            -d <= x - y <= d,
            0 <= r <= ONE,
    ;
    lemma_product_moves(r, x, y, d);
    fixed::lemma_product_commutes(r, x);
    fixed::lemma_product_commutes(r, y);
}

/// A fractal sum is continuous where its octaves are.
pub proof fn lemma_fractal_continuous(
    b: Basis,
    p: (int, int),
    q: (int, int),
    octaves: u32,
    seed: u32,
)
    requires
        settled(b, Lat::at(p.0), Lat::at(p.1), seed, fixed::octave_count(octaves)),
        settled(b, Lat::at(q.0), Lat::at(q.1), seed, fixed::octave_count(octaves)),
    ensures
        ({
            let r = exact::norm_recip(octaves);
            let (px, py) = (Lat::at(p.0), Lat::at(p.1));
            let (qx, qy) = (Lat::at(q.0), Lat::at(q.1));
            distance(
                exact::fractal_noise(b, px, py, octaves, seed, r) - exact::fractal_noise(
                    b,
                    qx,
                    qy,
                    octaves,
                    seed,
                    r,
                ),
            ) <= fractal_change(b, octaves, apart(p, q))
        }),
{
    reveal(exact::fractal_noise);
    let n = fixed::octave_count(octaves);
    let (px, py) = (Lat::at(p.0), Lat::at(p.1));
    let (qx, qy) = (Lat::at(q.0), Lat::at(q.1));
    lemma_fractal_sum_moves(b, p, q, seed, n);
    ranges::lemma_fractal_sum_range(b, px, py, seed, n);
    ranges::lemma_fractal_sum_range(b, qx, qy, seed, n);
    fixed::lemma_amplitude_sum_bounds(n);
    let x = exact::fractal_sum(b, px, py, seed, n);
    let y = exact::fractal_sum(b, qx, qy, seed, n);
    lemma_sum_fits(x, ranges::basis_floor(b), ranges::basis_ceiling(b), fixed::amplitude_sum(n));
    lemma_sum_fits(y, ranges::basis_floor(b), ranges::basis_ceiling(b), fixed::amplitude_sum(n));
    let c = counting(n) * (slope(b) * apart(p, q) + 2);
    lemma_change_in_steps(x - y, c, jump(b), fixed::amplitude_sum(n));
    lemma_normalised_moves(x, y, octaves, c + 2 * jump(b));
}

/// A weighted sum of values below two is below four.
pub proof fn lemma_sum_fits(x: int, lo: int, hi: int, norm: int)
    requires
        lo * norm <= x * ONE <= hi * norm,
        -2 * ONE <= lo <= 0,
        0 <= hi <= 2 * ONE,
        0 <= norm < 2 * ONE,
    ensures
        -4 * ONE <= x <= 4 * ONE,
{
    assert(hi * norm <= (4 * ONE) * ONE) by (nonlinear_arith)
        requires
            0 <= hi <= 2 * ONE,
            0 <= norm < 2 * ONE,
    ;
    assert(lo * norm >= -((4 * ONE) * ONE)) by (nonlinear_arith)
        requires
            -2 * ONE <= lo <= 0,
            0 <= norm < 2 * ONE,
    ;
}

/// A ridge moves as much as the noise under it.
proof fn lemma_ridge_moves(v: int, w: int)
    ensures
        distance(exact::ridge(v) - exact::ridge(w)) <= distance(v - w),
{
}

/// A product of factors of at most one is at most one, and truncated by less
/// than a step.
proof fn lemma_unit_product(a: int, b: int)
    requires
        -ONE <= a <= ONE,
        -ONE <= b <= ONE,
    ensures
        -ONE <= fixed::times(a, b) <= ONE,
        -ONE < a * b - fixed::times(a, b) * ONE < ONE,
{
    fixed::lemma_product_shrinks(a, b);
    fixed::lemma_product_is_truncated(a, b);
}

/// Products of factors of at most one change by at most what both factors
/// do, and a step.
proof fn lemma_products_move(x: int, r: int, y: int, t: int, e: int, d: int)
    requires
        -ONE <= x <= ONE,
        -ONE <= r <= ONE,
        -ONE <= y <= ONE,
        -ONE <= t <= ONE,
        distance(x - y) <= e,
        distance(r - t) <= d,
    ensures
        distance(fixed::times(x, r) - fixed::times(y, t)) <= e + d + 1,
        -ONE <= fixed::times(x, r) <= ONE,
        -ONE <= fixed::times(y, t) <= ONE,
{
    let s = ONE as int;
    lemma_unit_product(x, r);
    lemma_unit_product(y, t);
    let (u, v) = (fixed::times(x, r), fixed::times(y, t));
    assert(x * r - y * t == r * (x - y) + y * (r - t)) by (nonlinear_arith);
    assert(-(e * s) <= r * (x - y) <= e * s) by (nonlinear_arith)
        requires
            -s <= r <= s,
            -e <= x - y <= e,
    ;
    assert(-(d * s) <= y * (r - t) <= d * s) by (nonlinear_arith)
        requires
            -s <= y <= s,
            -d <= r - t <= d,
    ;
    let g = u - v;
    assert(g * s == u * s - v * s) by (nonlinear_arith)
        requires
            g == u - v,
    ;
    let top = e + d;
    assert(top * s == e * s + d * s) by (nonlinear_arith)
        requires
            top == e + d,
    ;
    assert(-(top + 1) <= g <= top + 1) by (nonlinear_arith)
        requires
            -(top * s) - 2 * s < g * s < top * s + 2 * s,
            s > 0,
    ;
}

/// Sharpening by `k` makes a ridge move `k` times as much, and `k - 1` steps.
proof fn lemma_sharpened_moves(r: int, t: int, k: nat, d: int)
    requires
        -ONE <= r <= ONE,
        -ONE <= t <= ONE,
        distance(r - t) <= d,
    ensures
        distance(exact::sharpened(r, k) - exact::sharpened(t, k)) <= if k <= 1 {
            d
        } else {
            k * d + k - 1
        },
        -ONE <= exact::sharpened(r, k) <= ONE,
        -ONE <= exact::sharpened(t, k) <= ONE,
    decreases k,
{
    if k > 1 {
        let m = (k - 1) as nat;
        lemma_sharpened_moves(r, t, m, d);
        let (x, y) = (exact::sharpened(r, m), exact::sharpened(t, m));
        let e = if m <= 1 {
            d
        } else {
            m * d + m - 1
        };
        if m == 1 {
            assert(1 * d == d);
        }
        lemma_products_move(x, r, y, t, e, d);
        assert(k * d == m * d + d) by (nonlinear_arith)
            requires
                k == m + 1,
        ;
    }
}

/// How many steps a sharpened ridge changes by, at most, however short the
/// move.
pub open spec fn ridge_jump(b: Basis, sharpness: u32) -> int {
    fixed::octave_count(sharpness) * jump(b) + fixed::octave_count(sharpness) - 1
}

/// How many steps a ridged sum changes by, at most, between points `d` steps
/// apart.
pub open spec fn ridged_change(b: Basis, octaves: u32, sharpness: u32, d: int) -> int {
    counting(fixed::octave_count(octaves)) * (fixed::octave_count(sharpness) * (slope(b) * d) + 2)
        + 2 * ridge_jump(b, sharpness) + 1
}

/// The ridges of `n` octaves, at two points.
proof fn lemma_ridged_sum_moves(
    b: Basis,
    p: (int, int),
    q: (int, int),
    sharpness: u32,
    seed: u32,
    n: nat,
)
    requires
        settled(b, Lat::at(p.0), Lat::at(p.1), seed, n),
        settled(b, Lat::at(q.0), Lat::at(q.1), seed, n),
    ensures
        distance(
            exact::ridged_sum(b, Lat::at(p.0), Lat::at(p.1), sharpness, seed, n)
                - exact::ridged_sum(b, Lat::at(q.0), Lat::at(q.1), sharpness, seed, n),
        ) * ONE <= (counting(n) * (fixed::octave_count(sharpness) * (slope(b) * apart(p, q)) + 2))
            * ONE + ridge_jump(b, sharpness) * fixed::amplitude_sum(n),
    decreases n,
{
    let d = slope(b) * apart(p, q);
    let k = fixed::octave_count(sharpness);
    let (each, j) = (k * d, ridge_jump(b, sharpness));
    if n == 0 {
        assert(0 * (each + 2) == 0 && j * 0 == 0) by (nonlinear_arith);
    } else {
        let o = (n - 1) as nat;
        lemma_ridged_sum_moves(b, p, q, sharpness, seed, o);
        let (px, py) = (Lat::at(p.0), Lat::at(p.1));
        let (qx, qy) = (Lat::at(q.0), Lat::at(q.1));
        assert(calm(b, exact::octave_noise(b, px, py, seed, o)));
        assert(calm(b, exact::octave_noise(b, qx, qy, seed, o)));
        lemma_octave_ridge_moves(b, p, q, sharpness, seed, o);
        assert(each >= 0 && j >= 0) by (nonlinear_arith)
            requires
                each == k * (slope(b) * apart(p, q)),
                j == k * jump(b) + k - 1,
                slope(b) >= 0,
                apart(p, q) >= 0,
                jump(b) >= 0,
                k >= 1,
        ;
        let x = exact::octave_ridge(b, px, py, sharpness, seed, o);
        let y = exact::octave_ridge(b, qx, qy, sharpness, seed, o);
        lemma_weighted_moves(o, x, y, each, j);
        let amp = fixed::amplitude(o);
        lemma_terms_add(
            n,
            exact::ridged_sum(b, px, py, sharpness, seed, o) - exact::ridged_sum(
                b,
                qx,
                qy,
                sharpness,
                seed,
                o,
            ),
            fixed::times(amp, x) - fixed::times(amp, y),
            each,
            j,
            fixed::amplitude_sum(o),
        );
    }
}

/// The sharpened ridge of octave `o`, at two points.
proof fn lemma_octave_ridge_moves(
    b: Basis,
    p: (int, int),
    q: (int, int),
    sharpness: u32,
    seed: u32,
    o: nat,
)
    requires
        calm(b, exact::octave_noise(b, Lat::at(p.0), Lat::at(p.1), seed, o)),
        calm(b, exact::octave_noise(b, Lat::at(q.0), Lat::at(q.1), seed, o)),
    ensures
        ({
            let x = exact::octave_ridge(b, Lat::at(p.0), Lat::at(p.1), sharpness, seed, o);
            let y = exact::octave_ridge(b, Lat::at(q.0), Lat::at(q.1), sharpness, seed, o);
            let each = fixed::octave_count(sharpness) * (slope(b) * apart(p, q));
            &&& distance(x - y) <= each * pow2(o) + ridge_jump(b, sharpness)
            &&& -ONE <= x <= ONE
            &&& -ONE <= y <= ONE
        }),
{
    let d = slope(b) * apart(p, q);
    let k = fixed::octave_count(sharpness);
    let u = pow2(o) as int;
    lemma_octave_moves(b, p, q, seed, o);
    lemma_octave_bounded(b, Lat::at(p.0), Lat::at(p.1), seed, o);
    lemma_octave_bounded(b, Lat::at(q.0), Lat::at(q.1), seed, o);
    let v = exact::octave_noise(b, Lat::at(p.0), Lat::at(p.1), seed, o);
    let w = exact::octave_noise(b, Lat::at(q.0), Lat::at(q.1), seed, o);
    lemma_ridge_moves(v, w);
    let e = d * u + jump(b);
    lemma_sharpened_moves(exact::ridge(v), exact::ridge(w), sharpness as nat, e);
    assert(k * e + k - 1 == (k * d) * u + ridge_jump(b, sharpness)) by (nonlinear_arith)
        requires
            e == d * u + jump(b),
            ridge_jump(b, sharpness) == k * jump(b) + k - 1,
    ;
    if k == 1 {
        assert(1 * e == e);
    }
}

/// A ridged sum is continuous where its octaves are.
pub proof fn lemma_ridged_continuous(
    b: Basis,
    p: (int, int),
    q: (int, int),
    octaves: u32,
    sharpness: u32,
    seed: u32,
)
    requires
        settled(b, Lat::at(p.0), Lat::at(p.1), seed, fixed::octave_count(octaves)),
        settled(b, Lat::at(q.0), Lat::at(q.1), seed, fixed::octave_count(octaves)),
    ensures
        ({
            let r = exact::norm_recip(octaves);
            let (px, py) = (Lat::at(p.0), Lat::at(p.1));
            let (qx, qy) = (Lat::at(q.0), Lat::at(q.1));
            distance(
                exact::ridged_noise(b, px, py, octaves, sharpness, seed, r)
                    - exact::ridged_noise(b, qx, qy, octaves, sharpness, seed, r),
            ) <= ridged_change(b, octaves, sharpness, apart(p, q))
        }),
{
    reveal(exact::ridged_noise);
    let n = fixed::octave_count(octaves);
    let (px, py) = (Lat::at(p.0), Lat::at(p.1));
    let (qx, qy) = (Lat::at(q.0), Lat::at(q.1));
    lemma_ridged_sum_moves(b, p, q, sharpness, seed, n);
    ranges::lemma_ridged_sum_range(b, px, py, sharpness, seed, n);
    ranges::lemma_ridged_sum_range(b, qx, qy, sharpness, seed, n);
    fixed::lemma_amplitude_sum_bounds(n);
    let x = exact::ridged_sum(b, px, py, sharpness, seed, n);
    let y = exact::ridged_sum(b, qx, qy, sharpness, seed, n);
    lemma_sum_fits(x, ranges::ridge_floor(b), ONE as int, fixed::amplitude_sum(n));
    lemma_sum_fits(y, ranges::ridge_floor(b), ONE as int, fixed::amplitude_sum(n));
    let c = counting(n) * (fixed::octave_count(sharpness) * (slope(b) * apart(p, q)) + 2);
    let j = ridge_jump(b, sharpness);
    assert(j >= 0) by (nonlinear_arith)
        requires
            j == fixed::octave_count(sharpness) * jump(b) + fixed::octave_count(sharpness) - 1,
            jump(b) >= 0,
            fixed::octave_count(sharpness) >= 1,
    ;
    lemma_change_in_steps(x - y, c, j, fixed::amplitude_sum(n));
    lemma_normalised_moves(x, y, octaves, c + 2 * j);
}

/// How many steps a product with `a` changes by, at most, where the other
/// factor changes by `d` steps: `|a|` times as many, and a step.
pub open spec fn scaled_change(a: int, d: int) -> int {
    distance(a) * d / (ONE as int) + 1
}

/// A product changes by as much as its fixed factor makes of the change of
/// the other.
proof fn lemma_scaled_moves(a: int, x: int, y: int, d: int)
    requires
        distance(x - y) <= d,
    ensures
        distance(fixed::product(a, x) - fixed::product(a, y)) <= scaled_change(a, d),
{
    let top = distance(a) * d;
    assert(a * x - a * y == a * (x - y)) by (nonlinear_arith);
    assert(-top <= a * (x - y) <= top) by (nonlinear_arith)
        requires
            -d <= x - y <= d,
            top == distance(a) * d,
            distance(a) == a || distance(a) == -a,
            distance(a) >= 0,
    ;
    lemma_truncated_moves(a * x, a * y, top);
}

/// Truncated to whole steps, numbers at most `d` apart are at most as many
/// steps apart, and one.
proof fn lemma_truncated_moves(x: int, y: int, d: int)
    requires
        -d <= x - y <= d,
    ensures
        distance(
            math::trunc_div(x, ONE as int) - math::trunc_div(y, ONE as int),
        ) <= d / (ONE as int) + 1,
{
}

/// The same for products that do not wrap around.
proof fn lemma_unwrapped_moves(a: int, x: int, y: int, d: int)
    requires
        distance(x - y) <= d,
        math::fits_i32(fixed::product(a, x)),
        math::fits_i32(fixed::product(a, y)),
    ensures
        distance(fixed::times(a, x) - fixed::times(a, y)) <= scaled_change(a, d),
{
    lemma_scaled_moves(a, x, y, d);
}

/// A larger change makes a larger one.
proof fn lemma_scaled_change_grows(a: int, d: int, e: int)
    requires
        0 <= d <= e,
    ensures
        0 <= scaled_change(a, d) <= scaled_change(a, e),
{
    let k = distance(a);
    assert(0 <= k * d <= k * e) by (nonlinear_arith)
        requires
            0 <= d <= e,
            k >= 0,
    ;
}

/// Longer moves may change a fractal sum by more.
proof fn lemma_change_grows(b: Basis, octaves: u32, d: int, e: int)
    requires
        0 <= d <= e,
    ensures
        0 <= fractal_change(b, octaves, d) <= fractal_change(b, octaves, e),
{
    let (n, k) = (counting(fixed::octave_count(octaves)), slope(b));
    assert(0 <= n * (k * d + 2) <= n * (k * e + 2)) by (nonlinear_arith)
        requires
            0 <= d <= e,
            n >= 0,
            k >= 0,
    ;
}

/// How far apart the points displaced with strength `warp` are, at most, for
/// points `d` steps apart.
pub open spec fn displaced(warp: int, d: int) -> int {
    d + 2 * scaled_change(warp, fractal_change(Basis::Value, 2, d))
}

/// Longer moves may displace points by more.
proof fn lemma_displaced_grows(warp: int, d: int, e: int)
    requires
        0 <= d <= e,
    ensures
        0 <= displaced(warp, d) <= displaced(warp, e),
{
    lemma_change_grows(Basis::Value, 2, d, e);
    lemma_scaled_change_grows(
        warp,
        fractal_change(Basis::Value, 2, d),
        fractal_change(Basis::Value, 2, e),
    );
}

/// A warp field, as sampled off to one side.
proof fn lemma_warp_field_moves(p: (int, int), q: (int, int), ox: int, oy: int, seed: u32)
    ensures
        ({
            let r = exact::norm_recip(2);
            let f = exact::fractal_noise(
                Basis::Value,
                Lat::at(Lat::at(p.0).position() + ox),
                Lat::at(Lat::at(p.1).position() + oy),
                2,
                seed,
                r,
            );
            let g = exact::fractal_noise(
                Basis::Value,
                Lat::at(Lat::at(q.0).position() + ox),
                Lat::at(Lat::at(q.1).position() + oy),
                2,
                seed,
                r,
            );
            distance(f - g) <= fractal_change(Basis::Value, 2, apart(p, q))
        }),
{
    lattice::lemma_advance_composes(0, p.0, ox);
    lattice::lemma_advance_composes(0, p.1, oy);
    lattice::lemma_advance_composes(0, q.0, ox);
    lattice::lemma_advance_composes(0, q.1, oy);
    let (sp, sq) = ((p.0 + ox, p.1 + oy), (q.0 + ox, q.1 + oy));
    lemma_fractal_continuous(Basis::Value, sp, sq, 2, seed);
}

/// Where a coordinate is displaced to.
pub open spec fn displaced_to(w: Prepared, lx: Lat, ly: Lat) -> (Lat, Lat) {
    let d = w.displacement(lx, ly);
    (Lat::at(lx.position() + d.0), Lat::at(ly.position() + d.1))
}

/// The octaves of a pattern are continuous at a coordinate.
pub open spec fn pattern_settled(w: Prepared, lx: Lat, ly: Lat) -> bool {
    let l = if w.pattern is Warped {
        displaced_to(w, lx, ly)
    } else {
        (lx, ly)
    };
    settled(w.basis, l.0, l.1, w.seed, fixed::octave_count(w.octaves))
}

/// A domain-warped sum is continuous where its octaves are.
pub proof fn lemma_warped_continuous(w: Prepared, p: (int, int), q: (int, int))
    requires
        ({
            let l = displaced_to(w, Lat::at(p.0), Lat::at(p.1));
            settled(w.basis, l.0, l.1, w.seed, fixed::octave_count(w.octaves))
        }),
        ({
            let l = displaced_to(w, Lat::at(q.0), Lat::at(q.1));
            settled(w.basis, l.0, l.1, w.seed, fixed::octave_count(w.octaves))
        }),
        w.recip == exact::norm_recip(w.octaves),
        w.recip2 == exact::norm_recip(2),
        w.warp_unwrapped(Lat::at(p.0), Lat::at(p.1)),
        w.warp_unwrapped(Lat::at(q.0), Lat::at(q.1)),
    ensures
        distance(
            w.warped_noise(Lat::at(p.0), Lat::at(p.1)) - w.warped_noise(
                Lat::at(q.0),
                Lat::at(q.1),
            ),
        ) <= fractal_change(w.basis, w.octaves, displaced(w.warp as int, apart(p, q))),
{
    let (dp, dq) = (
        w.displacement(Lat::at(p.0), Lat::at(p.1)),
        w.displacement(Lat::at(q.0), Lat::at(q.1)),
    );
    let c = scaled_change(w.warp as int, fractal_change(Basis::Value, 2, apart(p, q)));
    lemma_displacements_move(w, p, q);
    lemma_displaced_sums_move(w.basis, p, q, dp, dq, w.octaves, w.seed, c);
}

/// Fractal sums at two displaced points, where the displacements differ by up
/// to `c` steps along each axis.
proof fn lemma_displaced_sums_move(
    b: Basis,
    p: (int, int),
    q: (int, int),
    dp: (int, int),
    dq: (int, int),
    octaves: u32,
    seed: u32,
    c: int,
)
    requires
        distance(dp.0 - dq.0) <= c,
        distance(dp.1 - dq.1) <= c,
        ({
            let n = fixed::octave_count(octaves);
            let (px, py) = (
                Lat::at(Lat::at(p.0).position() + dp.0),
                Lat::at(Lat::at(p.1).position() + dp.1),
            );
            let (qx, qy) = (
                Lat::at(Lat::at(q.0).position() + dq.0),
                Lat::at(Lat::at(q.1).position() + dq.1),
            );
            settled(b, px, py, seed, n) && settled(b, qx, qy, seed, n)
        }),
    ensures
        ({
            let r = exact::norm_recip(octaves);
            let (px, py) = (
                Lat::at(Lat::at(p.0).position() + dp.0),
                Lat::at(Lat::at(p.1).position() + dp.1),
            );
            let (qx, qy) = (
                Lat::at(Lat::at(q.0).position() + dq.0),
                Lat::at(Lat::at(q.1).position() + dq.1),
            );
            distance(
                exact::fractal_noise(b, px, py, octaves, seed, r) - exact::fractal_noise(
                    b,
                    qx,
                    qy,
                    octaves,
                    seed,
                    r,
                ),
            ) <= fractal_change(b, octaves, apart(p, q) + 2 * c)
        }),
{
    let (mp, mq) = ((p.0 + dp.0, p.1 + dp.1), (q.0 + dq.0, q.1 + dq.1));
    lattice::lemma_advance_composes(0, p.0, dp.0);
    lattice::lemma_advance_composes(0, p.1, dp.1);
    lattice::lemma_advance_composes(0, q.0, dq.0);
    lattice::lemma_advance_composes(0, q.1, dq.1);
    lemma_fractal_continuous(b, mp, mq, octaves, seed);
    lemma_change_grows(b, octaves, apart(mp, mq), apart(p, q) + 2 * c);
}

/// The warp fields at two points.
proof fn lemma_warp_fields_move(w: Prepared, p: (int, int), q: (int, int))
    requires
        w.recip2 == exact::norm_recip(2),
    ensures
        ({
            let fp = w.warp_fields(Lat::at(p.0), Lat::at(p.1));
            let fq = w.warp_fields(Lat::at(q.0), Lat::at(q.1));
            let c = fractal_change(Basis::Value, 2, apart(p, q));
            distance(fp.0 - fq.0) <= c && distance(fp.1 - fq.1) <= c
        }),
{
    lemma_warp_field_moves(
        p,
        q,
        exact::WARP_OFFSETS[0] as int,
        exact::WARP_OFFSETS[1] as int,
        w.seed ^ 0x5f35_6495,
    );
    lemma_warp_field_moves(
        p,
        q,
        exact::WARP_OFFSETS[2] as int,
        exact::WARP_OFFSETS[3] as int,
        w.seed ^ 0x3c6e_f372,
    );
}

/// The displacements at two points.
proof fn lemma_displacements_move(w: Prepared, p: (int, int), q: (int, int))
    requires
        w.recip2 == exact::norm_recip(2),
        w.warp_unwrapped(Lat::at(p.0), Lat::at(p.1)),
        w.warp_unwrapped(Lat::at(q.0), Lat::at(q.1)),
    ensures
        ({
            let dp = w.displacement(Lat::at(p.0), Lat::at(p.1));
            let dq = w.displacement(Lat::at(q.0), Lat::at(q.1));
            let c = scaled_change(w.warp as int, fractal_change(Basis::Value, 2, apart(p, q)));
            distance(dp.0 - dq.0) <= c && distance(dp.1 - dq.1) <= c
        }),
{
    lemma_warp_fields_move(w, p, q);
    let c = fractal_change(Basis::Value, 2, apart(p, q));
    let fp = w.warp_fields(Lat::at(p.0), Lat::at(p.1));
    let fq = w.warp_fields(Lat::at(q.0), Lat::at(q.1));
    lemma_unwrapped_moves(w.warp as int, fp.0, fq.0, c);
    lemma_unwrapped_moves(w.warp as int, fp.1, fq.1, c);
}

/// How many steps the pattern of a material changes by, at most, between
/// points `d` steps apart.
pub open spec fn pattern_change(w: Prepared, d: int) -> int {
    if w.pattern is Fractal {
        fractal_change(w.basis, w.octaves, d)
    } else if w.pattern is Ridged {
        ridged_change(w.basis, w.octaves, w.sharpness, d)
    } else {
        fractal_change(w.basis, w.octaves, displaced(w.warp as int, d))
    }
}

/// Longer moves may change a pattern by more.
pub proof fn lemma_pattern_change_grows(w: Prepared, d: int, e: int)
    requires
        0 <= d <= e,
    ensures
        0 <= pattern_change(w, d) <= pattern_change(w, e),
{
    if w.pattern is Fractal {
        lemma_change_grows(w.basis, w.octaves, d, e);
    } else if w.pattern is Ridged {
        let n = counting(fixed::octave_count(w.octaves));
        let k = fixed::octave_count(w.sharpness) as int;
        let s = slope(w.basis);
        assert(0 <= k * (s * d) <= k * (s * e)) by (nonlinear_arith)
            requires
                0 <= d <= e,
                k >= 0,
                s >= 0,
        ;
        let (a, b) = (k * (s * d) + 2, k * (s * e) + 2);
        assert(0 <= n * a <= n * b) by (nonlinear_arith)
            requires
                0 <= a <= b,
                n >= 0,
        ;
        let j = jump(w.basis);
        assert(k * j >= 0) by (nonlinear_arith)
            requires
                k >= 1,
                j >= 0,
        ;
    } else {
        let warp = w.warp as int;
        lemma_displaced_grows(warp, d, e);
        lemma_change_grows(w.basis, w.octaves, displaced(warp, d), displaced(warp, e));
    }
}

/// The pattern is continuous where its octaves are.
proof fn lemma_pattern_continuous(w: Prepared, p: (int, int), q: (int, int))
    requires
        pattern_settled(w, Lat::at(p.0), Lat::at(p.1)),
        pattern_settled(w, Lat::at(q.0), Lat::at(q.1)),
        w.recip == exact::norm_recip(w.octaves),
        w.recip2 == exact::norm_recip(2),
        w.pattern is Warped ==> {
            &&& w.warp_unwrapped(Lat::at(p.0), Lat::at(p.1))
            &&& w.warp_unwrapped(Lat::at(q.0), Lat::at(q.1))
        },
    ensures
        distance(
            w.pattern_noise(Lat::at(p.0), Lat::at(p.1)) - w.pattern_noise(
                Lat::at(q.0),
                Lat::at(q.1),
            ),
        ) <= pattern_change(w, apart(p, q)),
{
    if w.pattern is Fractal {
        lemma_fractal_continuous(w.basis, p, q, w.octaves, w.seed);
    } else if w.pattern is Ridged {
        lemma_ridged_continuous(w.basis, p, q, w.octaves, w.sharpness, w.seed);
    } else {
        lemma_warped_continuous(w, p, q);
    }
}

/// How many steps the lightness of a material changes by, at most, between
/// points `d` steps apart: half as many as a signed pattern.
pub open spec fn lightness_change(w: Prepared, d: int) -> int {
    if w.pattern is Ridged {
        pattern_change(w, d)
    } else {
        (pattern_change(w, d) + 1) / 2
    }
}

/// How many steps the samples of a material change by, at most, between
/// points `d` steps apart: the contrast times what the lightness does, and a
/// step.
pub open spec fn tone_change(w: Prepared, d: int) -> int {
    scaled_change(w.contrast as int, lightness_change(w, d))
}

/// Longer moves may change a sample by more.
pub proof fn lemma_tone_change_grows(w: Prepared, d: int, e: int)
    requires
        0 <= d <= e,
    ensures
        tone_change(w, d) <= tone_change(w, e),
{
    lemma_pattern_change_grows(w, d, e);
    lemma_scaled_change_grows(w.contrast as int, lightness_change(w, d), lightness_change(w, e));
}

/// The picture is continuous: wherever no product wraps around, the samples
/// of a material at two points of the plane differ by at most the contrast
/// times what its lightness does, and a step. Over value and gradient noise
/// this holds everywhere, and over cellular noise where the octaves at both
/// points are at most a cell from a feature point.
pub proof fn lemma_tone_continuous(m: Material, p: (int, int), q: (int, int))
    requires
        ({
            let w = exact::prepared(m);
            let (px, py) = (Lat::at(p.0), Lat::at(p.1));
            let (qx, qy) = (Lat::at(q.0), Lat::at(q.1));
            &&& w.unwrapped(px, py)
            &&& w.unwrapped(qx, qy)
            &&& pattern_settled(w, px, py)
            &&& pattern_settled(w, qx, qy)
        }),
    ensures
        ({
            let w = exact::prepared(m);
            distance(
                w.tone(Lat::at(p.0), Lat::at(p.1)) - w.tone(Lat::at(q.0), Lat::at(q.1)),
            ) <= tone_change(w, apart(p, q))
        }),
{
    let w = exact::prepared(m);
    let (px, py) = (Lat::at(p.0), Lat::at(p.1));
    let (qx, qy) = (Lat::at(q.0), Lat::at(q.1));
    exact::lemma_norm_recip(m.octaves);
    exact::lemma_norm_recip(2);
    lemma_pattern_continuous(w, p, q);
    lemma_lightness_moves(
        w,
        w.pattern_noise(px, py),
        w.pattern_noise(qx, qy),
        w.lightness(px, py),
        w.lightness(qx, qy),
        apart(p, q),
    );
    lemma_remap_moves(
        w.contrast as int,
        w.pivot as int,
        w.lightness(px, py),
        w.lightness(qx, qy),
        lightness_change(w, apart(p, q)),
    );
}

/// The lightness of two patterns.
proof fn lemma_lightness_moves(w: Prepared, a: int, b: int, x: int, y: int, d: int)
    requires
        distance(a - b) <= pattern_change(w, d),
        x == if w.pattern is Ridged {
            a
        } else {
            a / 2 + ONE / 2
        },
        y == if w.pattern is Ridged {
            b
        } else {
            b / 2 + ONE / 2
        },
    ensures
        distance(x - y) <= lightness_change(w, d),
{
}

/// The contrast remap of two lightnesses, clamped.
proof fn lemma_remap_moves(contrast: int, pivot: int, x: int, y: int, d: int)
    requires
        distance(x - y) <= d,
        math::fits_i32(fixed::product(x - pivot, contrast)),
        math::fits_i32(fixed::product(y - pivot, contrast)),
    ensures
        ({
            let u = fixed::times(x - pivot, contrast) + pivot;
            let v = fixed::times(y - pivot, contrast) + pivot;
            let clamp = |n: int|
                if n < 0 {
                    0
                } else if n > ONE {
                    ONE as int
                } else {
                    n
                };
            distance(clamp(u) - clamp(v)) <= scaled_change(contrast, d)
        }),
{
    fixed::lemma_product_commutes(contrast, x - pivot);
    fixed::lemma_product_commutes(contrast, y - pivot);
    lemma_unwrapped_moves(contrast, x - pivot, y - pivot, d);
}

} // verus!
