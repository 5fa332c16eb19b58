//! What fractal sums are, in real arithmetic.
//!
//! A fractal sum is a weighted mean of octaves: each is the basis at twice
//! the frequency of the one before it, with a seed of its own, and counts
//! half as much. The fixed-point pipeline truncates every product, so it
//! follows the exact mean up to a few steps of 2^-27.

use vstd::arithmetic::div_mod::*;
use vstd::arithmetic::power::*;
use vstd::arithmetic::power2::*;
use vstd::prelude::*;

use crate::exact;
use crate::exact::{Lat, Prepared};
use crate::fixed;
use crate::fixed::ONE;
use crate::lattice;
use crate::math;
use crate::noise::Basis;
use crate::ranges;
use crate::smoothness;

verus! {

/// Octave `o` of a basis at a position: the basis at a position 2^o times as
/// far out, with a seed that is `o` times 0x9e3779b1 on, modulo 2^32.
pub open spec fn octave_value(b: Basis, p: (int, int), seed: u32, o: nat) -> int {
    exact::basis_noise(
        b,
        Lat::at(pow2(o) * p.0),
        Lat::at(pow2(o) * p.1),
        ((seed + o * 0x9e37_79b1) % 0x1_0000_0000) as u32,
    )
}

/// The first `n` octaves, each weighted twice as much as the next.
pub open spec fn octave_total(b: Basis, p: (int, int), seed: u32, n: nat) -> int
    decreases n,
{
    if n == 0 {
        0
    } else {
        2 * octave_total(b, p, seed, (n - 1) as nat) + octave_value(b, p, seed, (n - 1) as nat)
    }
}

/// The pipeline's octaves are these.
#[verifier::rlimit(40)]
proof fn lemma_octave_value(b: Basis, p: (int, int), seed: u32, o: nat)
    requires
        o <= u32::MAX,
    ensures
        exact::octave_noise(b, Lat::at(p.0), Lat::at(p.1), seed, o) == octave_value(b, p, seed, o),
        -2 * ONE <= octave_value(b, p, seed, o) <= 2 * ONE,
{
    smoothness::lemma_octave_at(p.0, o);
    smoothness::lemma_octave_at(p.1, o);
    smoothness::lemma_octave_bounded(b, Lat::at(p.0), Lat::at(p.1), seed, o);
    lemma_octave_seed(seed, o);
}

/// The seed of an octave, as a sum modulo 2^32.
#[verifier::rlimit(40)]
proof fn lemma_octave_seed(seed: u32, o: nat)
    requires
        o <= u32::MAX,
    ensures
        exact::octave_seed(seed, o) == ((seed + o * 0x9e37_79b1) % 0x1_0000_0000) as u32,
{
    let far = o as int * 0x9e37_79b1;
    lemma_wrapping_product(o as u32, 0x9e37_79b1);
    lemma_wrapping_sum(seed, (o as u32).wrapping_mul(0x9e37_79b1));
    lemma_sum_of_remainder(seed as int, far);
}

/// A remainder may be taken before adding.
proof fn lemma_sum_of_remainder(a: int, b: int)
    ensures
        (a + b % 0x1_0000_0000) % 0x1_0000_0000 == (a + b) % 0x1_0000_0000,
{
    let (q, r) = (b / 0x1_0000_0000, b % 0x1_0000_0000);
    assert(b == 0x1_0000_0000 * q + r);
    lemma_mod_multiples_vanish(q, a + r, 0x1_0000_0000);
}

/// A wrapping product is the product modulo 2^32.
proof fn lemma_wrapping_product(a: u32, b: u32)
    ensures
        a.wrapping_mul(b) == (a * b) % 0x1_0000_0000,
{
}

/// A wrapping sum is the sum modulo 2^32.
proof fn lemma_wrapping_sum(a: u32, b: u32)
    ensures
        a.wrapping_add(b) == (a + b) % 0x1_0000_0000,
{
}

/// A term of a sum: the value of octave `o`, over 2^o, up to a step.
proof fn lemma_term(o: nat, v: int)
    requires
        o < 28,
        -2 * ONE <= v <= 2 * ONE,
    ensures
        ({
            let t = fixed::times(fixed::amplitude(o), v);
            -pow2(o) < t * pow2(o) - v < pow2(o)
        }),
{
    fixed::lemma_amplitude_sum(o);
    fixed::lemma_amplitude_step(o);
    lemma2_to64();
    let (amp, s) = (fixed::amplitude(o), ONE as int);
    let u = pow2(o) as int;
    lemma_pow2_adds(o, (27 - o) as nat);
    lemma_pow2_pos(o);
    lemma_pow2_pos((27 - o) as nat);
    assert(u * amp == s);
    fixed::lemma_product_shrinks(amp, v);
    fixed::lemma_product_is_truncated(amp, v);
    let t = fixed::product(amp, v);
    assert(-s < t * s - amp * v < s);
    assert(t * s - amp * v == (t * u - v) * amp) by (nonlinear_arith)
        requires
            s == u * amp,
    ;
    let e = t * u - v;
    assert(-u < e < u) by (nonlinear_arith)
        requires
            -(u * amp) < e * amp < u * amp,
            amp > 0,
    ;
}

/// One more term.
proof fn lemma_one_more(n: nat, sum: int, total: int, t: int, v: int)
    requires
        -(n * pow2(n)) <= sum * pow2(n) - 2 * total <= n * pow2(n),
        -pow2(n) < t * pow2(n) - v < pow2(n),
    ensures
        -((n + 1) * pow2(n + 1)) <= (sum + t) * pow2(n + 1) - 2 * (2 * total + v) <= (n + 1)
            * pow2(n + 1),
{
    let u = pow2(n) as int;
    lemma_pow2_unfold(n + 1);
    assert((sum + t) * (2 * u) == 2 * (sum * u) + 2 * (t * u)) by (nonlinear_arith);
    assert((n + 1) * (2 * u) == 2 * (n * u) + 2 * u) by (nonlinear_arith);
}

/// The sum of the first octaves.
proof fn lemma_sum_close(b: Basis, p: (int, int), seed: u32, n: nat)
    requires
        n <= 28,
    ensures
        ({
            let sum = exact::fractal_sum(b, Lat::at(p.0), Lat::at(p.1), seed, n);
            -(n * pow2(n)) <= sum * pow2(n) - 2 * octave_total(b, p, seed, n) <= n * pow2(n)
        }),
    decreases n,
{
    if n == 0 {
        assert(0 * pow2(0) == 0) by (nonlinear_arith);
    } else {
        let o = (n - 1) as nat;
        lemma_sum_close(b, p, seed, o);
        lemma_octave_value(b, p, seed, o);
        lemma_term(o, octave_value(b, p, seed, o));
        lemma_one_more(
            o,
            exact::fractal_sum(b, Lat::at(p.0), Lat::at(p.1), seed, o),
            octave_total(b, p, seed, o),
            fixed::times(fixed::amplitude(o), octave_value(b, p, seed, o)),
            octave_value(b, p, seed, o),
        );
    }
}

/// Normalising divides by the sum of the weights, up to five steps.
proof fn lemma_normalised(sum: int, octaves: u32)
    requires
        1 <= octaves <= 28,
        -4 * ONE <= sum <= 4 * ONE,
    ensures
        ({
            let u = pow2(octaves as nat);
            let r = fixed::times(sum, exact::norm_recip(octaves));
            -(10 * (u - 1)) <= 2 * (r * (u - 1)) - sum * u <= 10 * (u - 1)
        }),
{
    let n = octaves as nat;
    let (s, u) = (ONE as int, pow2(n) as int);
    let a = pow2((28 - n) as nat) as int;
    let norm = fixed::amplitude_sum(n);
    fixed::lemma_amplitude_sum(n);
    fixed::lemma_amplitude_sum_bounds(n);
    lemma2_to64();
    lemma_pow2_adds(n, (28 - n) as nat);
    lemma_pow2_pos((28 - n) as nat);
    assert(2 * s == u * a);
    assert(norm == (u - 1) * a) by (nonlinear_arith)
        requires
            norm == u * a - a,
    ;
    exact::lemma_norm_recip(octaves);
    let c = exact::norm_recip(octaves);
    lemma_fundamental_div_mod(s * s, norm);
    lemma_mod_bound(s * s, norm);
    fixed::lemma_product_shrinks(c, sum);
    fixed::lemma_product_commutes(c, sum);
    fixed::lemma_product_is_truncated(sum, c);
    let r = fixed::product(sum, c);
    assert(fixed::times(sum, c) == r);
    assert(-s < r * s - sum * c < s);
    // r norm - sum s, times s
    let d = r * norm - sum * s;
    let e = s * s - norm * c;
    assert(d * s == (r * s - sum * c) * norm - sum * e) by (nonlinear_arith)
        requires
            d == r * norm - sum * s,
            e == s * s - norm * c,
    ;
    let x = r * s - sum * c;
    assert(-(s * norm) <= x * norm <= s * norm) by (nonlinear_arith)
        requires
            -s < x < s,
            norm > 0,
    ;
    assert(-((4 * s) * norm) <= sum * e <= (4 * s) * norm) by (nonlinear_arith)
        requires
            -4 * s <= sum <= 4 * s,
            0 <= e < norm,
            s > 0,
    ;
    assert((4 * s) * norm == 4 * (s * norm)) by (nonlinear_arith);
    assert(-(5 * norm) <= d <= 5 * norm) by (nonlinear_arith)
        requires
            -(5 * (s * norm)) <= d * s <= 5 * (s * norm),
            s > 0,
    ;
    // Both sides are multiples of a.
    let g = 2 * (r * (u - 1)) - sum * u;
    assert(g * a == 2 * d) by (nonlinear_arith)
        requires
            g == 2 * (r * (u - 1)) - sum * u,
            d == r * norm - sum * s,
            norm == (u - 1) * a,
            2 * s == u * a,
    ;
    let top = 10 * (u - 1);
    assert(top * a == 10 * norm) by (nonlinear_arith)
        requires
            top == 10 * (u - 1),
            norm == (u - 1) * a,
    ;
    assert(-top <= g <= top) by (nonlinear_arith)
        requires
            -(top * a) <= g * a <= top * a,
            a > 0,
    ;
}

/// A total and a normalised sum together.
proof fn lemma_mean(r: int, sum: int, total: int, n: nat)
    requires
        1 <= n,
        -(n * pow2(n)) <= sum * pow2(n) - 2 * total <= n * pow2(n),
        ({
            let u = pow2(n);
            -(10 * (u - 1)) <= 2 * (r * (u - 1)) - sum * u <= 10 * (u - 1)
        }),
    ensures
        ({
            let w = pow2(n) - 1;
            -((n + 5) * w) <= r * w - total <= (n + 5) * w
        }),
{
    let u = pow2(n) as int;
    let w = u - 1;
    lemma_pow2_unfold(n);
    lemma_pow2_pos((n - 1) as nat);
    assert(n * u <= (2 * n) * w) by (nonlinear_arith)
        requires
            u <= 2 * w,
            n >= 0,
    ;
    assert((2 * n) * w + 10 * w == 2 * ((n + 5) * w)) by (nonlinear_arith);
}

/// A fractal sum of `n` octaves is their mean, the first weighted 2^(n-1), the
/// next half of that, and the last one, up to `n + 5` steps. Asking for no
/// octave asks for one.
pub proof fn lemma_fractal_is_weighted_mean(b: Basis, p: (int, int), octaves: u32, seed: u32)
    requires
        octaves <= 28,
    ensures
        ({
            let n = if octaves == 0 {
                1nat
            } else {
                octaves as nat
            };
            let w = pow2(n) - 1;
            let r = exact::fractal_noise(
                b,
                Lat::at(p.0),
                Lat::at(p.1),
                octaves,
                seed,
                exact::norm_recip(octaves),
            );
            -((n + 5) * w) <= r * w - octave_total(b, p, seed, n) <= (n + 5) * w
        }),
{
    reveal(exact::fractal_noise);
    let k = if octaves == 0 {
        1u32
    } else {
        octaves
    };
    let n = k as nat;
    let sum = exact::fractal_sum(b, Lat::at(p.0), Lat::at(p.1), seed, n);
    lemma_sum_close(b, p, seed, n);
    ranges::lemma_fractal_sum_range(b, Lat::at(p.0), Lat::at(p.1), seed, n);
    fixed::lemma_amplitude_sum_bounds(n);
    smoothness::lemma_sum_fits(
        sum,
        ranges::basis_floor(b),
        ranges::basis_ceiling(b),
        fixed::amplitude_sum(n),
    );
    lemma_normalised(sum, k);
    lemma_mean(
        fixed::times(sum, exact::norm_recip(k)),
        sum,
        octave_total(b, p, seed, n),
        n,
    );
}

/// One octave is the basis itself.
pub proof fn lemma_one_octave(b: Basis, lx: Lat, ly: Lat, octaves: u32, seed: u32)
    requires
        lx.wf(),
        ly.wf(),
        octaves <= 1,
    ensures
        exact::fractal_noise(b, lx, ly, octaves, seed, exact::norm_recip(octaves))
            == exact::basis_noise(b, lx, ly, seed),
{
    reveal(exact::fractal_noise);
    let v = exact::basis_noise(b, lx, ly, seed);
    lattice::lemma_at_own_position(lx);
    lattice::lemma_at_own_position(ly);
    lemma_octave_value(b, (lx.position(), ly.position()), seed, 0);
    lemma2_to64();
    assert(1 * lx.position() == lx.position() && 1 * ly.position() == ly.position());
    assert(octave_value(b, (lx.position(), ly.position()), seed, 0) == v);
    fixed::lemma_amplitude_sum(0);
    fixed::lemma_amplitude_sum(1);
    assert(exact::fractal_sum(b, lx, ly, seed, 0) == 0);
    assert(exact::fractal_sum(b, lx, ly, seed, 1) == fixed::times(ONE as int, v));
    fixed::lemma_product_identity(v);
    assert(fixed::amplitude_sum(fixed::octave_count(octaves)) == ONE);
    assert(ONE * ONE == 0x0040_0000_0000_0000int);
    assert(0x0040_0000_0000_0000int / (ONE as int) == ONE);
    assert(exact::norm_recip(octaves) == ONE);
}

/// Octaves past the 28th are too faint to count.
pub proof fn lemma_faint_octaves(b: Basis, lx: Lat, ly: Lat, octaves: u32, seed: u32)
    requires
        octaves >= 28,
    ensures
        exact::fractal_noise(b, lx, ly, octaves, seed, exact::norm_recip(octaves))
            == exact::fractal_noise(b, lx, ly, 28, seed, exact::norm_recip(28)),
{
    reveal(exact::fractal_noise);
    lemma_faint_sum(b, lx, ly, seed, octaves as nat);
    fixed::lemma_amplitude_sum(octaves as nat);
    fixed::lemma_amplitude_sum(28);
    lemma2_to64();
}

proof fn lemma_faint_sum(b: Basis, lx: Lat, ly: Lat, seed: u32, n: nat)
    requires
        n >= 28,
    ensures
        exact::fractal_sum(b, lx, ly, seed, n) == exact::fractal_sum(b, lx, ly, seed, 28),
    decreases n,
{
    if n > 28 {
        let o = (n - 1) as nat;
        lemma_faint_sum(b, lx, ly, seed, o);
        fixed::lemma_amplitude_sum(o);
        fixed::lemma_product_identity(exact::octave_noise(b, lx, ly, seed, o));
    }
}

/// A number over 2^o, with the fraction dropped.
pub open spec fn is_part(t: int, v: int, o: nat) -> bool {
    &&& smoothness::distance(t) * pow2(o) <= smoothness::distance(v)
    &&& smoothness::distance(v) < (smoothness::distance(t) + 1) * pow2(o)
    &&& t > 0 ==> v > 0
    &&& t < 0 ==> v < 0
}

/// A term of a sum is the part that its amplitude says.
proof fn lemma_term_is_part(o: nat, v: int)
    requires
        o < 28,
        -2 * ONE <= v <= 2 * ONE,
    ensures
        is_part(fixed::times(fixed::amplitude(o), v), v, o),
{
    fixed::lemma_amplitude_sum(o);
    fixed::lemma_amplitude_step(o);
    lemma2_to64();
    let (amp, s) = (fixed::amplitude(o), ONE as int);
    let u = pow2(o) as int;
    lemma_pow2_adds(o, (27 - o) as nat);
    lemma_pow2_pos(o);
    lemma_pow2_pos((27 - o) as nat);
    assert(u * amp == s);
    fixed::lemma_product_shrinks(amp, v);
    fixed::lemma_product_is_truncated(amp, v);
    let t = fixed::product(amp, v);
    let (m, w) = (smoothness::distance(t), smoothness::distance(v));
    assert(v >= 0 ==> amp * v >= 0) by (nonlinear_arith)
        requires
            amp > 0,
    ;
    assert(v <= 0 ==> amp * v <= 0) by (nonlinear_arith)
        requires
            amp > 0,
    ;
    assert(amp * (-v) == -(amp * v)) by (nonlinear_arith);
    assert(m * s <= amp * w < (m + 1) * s);
    assert(m * u <= w < (m + 1) * u) by (nonlinear_arith)
        requires
            m * (u * amp) <= amp * w,
            amp * w < (m + 1) * (u * amp),
            amp > 0,
    ;
    assert(v == 0 ==> t == 0) by {
        fixed::lemma_product_identity(amp);
    }
}

/// A sum of octaves fits the format.
proof fn lemma_octaves_fit(b: Basis, lx: Lat, ly: Lat, seed: u32, n: nat)
    ensures
        math::fits_i32(exact::fractal_sum(b, lx, ly, seed, n)),
{
    ranges::lemma_fractal_sum_range(b, lx, ly, seed, n);
    fixed::lemma_amplitude_sum(n);
    let norm = fixed::amplitude_sum(n);
    assert(0 <= norm <= 2 * ONE) by {
        if n <= 28 {
            lemma2_to64();
            if n > 0 {
                lemma_pow2_strictly_increases((28 - n) as nat, 28);
            }
        }
    }
    let (lo, hi) = (ranges::basis_floor(b), ranges::basis_ceiling(b));
    assert(-2 * ONE <= lo && hi <= 2 * ONE);
    assert(-(4 * ONE) * ONE <= lo * norm && hi * norm <= (4 * ONE) * ONE) by (nonlinear_arith)
        requires
            0 <= norm <= 2 * ONE,
            -2 * ONE <= lo,
            hi <= 2 * ONE,
    ;
}

/// A term of a sum: the first is its value, the others are parts of theirs,
/// and one past the 28th is nothing.
proof fn lemma_terms(n: nat, v: int)
    requires
        -2 * ONE <= v <= 2 * ONE,
    ensures
        ({
            let t = fixed::times(fixed::amplitude(n), v);
            &&& n == 0 ==> t == v
            &&& n < 28 ==> is_part(t, v, n)
            &&& n >= 28 ==> t == 0
            &&& -ONE <= v <= ONE ==> smoothness::distance(t) <= fixed::amplitude(n)
        }),
{
    fixed::lemma_amplitude_step(n);
    fixed::lemma_amplitude_sum(n);
    fixed::lemma_product_identity(v);
    if n < 28 {
        lemma_term_is_part(n, v);
    }
    if -ONE <= v <= ONE {
        fixed::lemma_product_commutes(fixed::amplitude(n), v);
        fixed::lemma_product_shrinks(v, fixed::amplitude(n));
    }
}

/// One octave more.
#[verifier::rlimit(40)]
proof fn lemma_octave_added(b: Basis, p: (int, int), seed: u32, n: nat)
    requires
        n < u32::MAX,
    ensures
        ({
            let (lx, ly) = (Lat::at(p.0), Lat::at(p.1));
            let term = exact::fractal_sum(b, lx, ly, seed, n + 1) - exact::fractal_sum(
                b,
                lx,
                ly,
                seed,
                n,
            );
            &&& n == 0 ==> term == octave_value(b, p, seed, n)
            &&& n < 28 ==> is_part(term, octave_value(b, p, seed, n), n)
            &&& n >= 28 ==> term == 0
        }),
{
    lemma_octave_value(b, p, seed, n);
    lemma_terms(n, octave_value(b, p, seed, n));
    lemma_fractal_step(b, Lat::at(p.0), Lat::at(p.1), seed, n);
}

/// A fractal sum of one octave more.
proof fn lemma_fractal_step(b: Basis, lx: Lat, ly: Lat, seed: u32, n: nat)
    ensures
        exact::fractal_sum(b, lx, ly, seed, n + 1) == exact::fractal_sum(b, lx, ly, seed, n)
            + fixed::times(fixed::amplitude(n), exact::octave_noise(b, lx, ly, seed, n)),
{
}

/// With a factor of one nothing is normalised.
proof fn lemma_octaves_as_they_are(
    b: Basis,
    lx: Lat,
    ly: Lat,
    octaves: u32,
    seed: u32,
    recip: int,
)
    ensures
        ({
            let sum = exact::fractal_sum(b, lx, ly, seed, fixed::octave_count(octaves));
            &&& exact::fractal_noise(b, lx, ly, octaves, seed, ONE as int) == sum
            &&& exact::fractal_noise(b, lx, ly, octaves, seed, recip) == fixed::times(sum, recip)
        }),
{
    reveal(exact::fractal_noise);
    let n = fixed::octave_count(octaves);
    lemma_octaves_fit(b, lx, ly, seed, n);
    fixed::lemma_product_identity(exact::fractal_sum(b, lx, ly, seed, n));
}

/// Before it is normalised, a fractal sum is the octaves added up one by one:
/// the first as it is, each further one over the next power of two, with the
/// fraction dropped. Normalising multiplies the sum.
#[verifier::rlimit(40)]
pub proof fn lemma_octaves_add_up(b: Basis, p: (int, int), octaves: u32, seed: u32, recip: int)
    requires
        1 <= octaves < u32::MAX,
    ensures
        ({
            let (lx, ly) = (Lat::at(p.0), Lat::at(p.1));
            let one = ONE as int;
            let sum = exact::fractal_noise(b, lx, ly, octaves, seed, one);
            let next = exact::fractal_noise(b, lx, ly, (octaves + 1) as u32, seed, one);
            &&& exact::fractal_noise(b, lx, ly, 0, seed, one) == octave_value(b, p, seed, 0)
            &&& exact::fractal_noise(b, lx, ly, 1, seed, one) == octave_value(b, p, seed, 0)
            &&& octaves < 28 ==> is_part(
                next - sum,
                octave_value(b, p, seed, octaves as nat),
                octaves as nat,
            )
            &&& octaves >= 28 ==> next == sum
            &&& exact::fractal_noise(b, lx, ly, octaves, seed, recip) == fixed::times(sum, recip)
        }),
{
    let (lx, ly) = (Lat::at(p.0), Lat::at(p.1));
    lemma_octave_added(b, p, seed, 0);
    lemma_octave_added(b, p, seed, octaves as nat);
    lemma_octaves_as_they_are(b, lx, ly, 0, seed, recip);
    lemma_octaves_as_they_are(b, lx, ly, 1, seed, recip);
    lemma_octaves_as_they_are(b, lx, ly, octaves, seed, recip);
    lemma_octaves_as_they_are(b, lx, ly, (octaves + 1) as u32, seed, recip);
    assert(exact::fractal_sum(b, lx, ly, seed, 0) == 0);
}

/// The crest of octave `o`: one less the magnitude of the octave, sharpened.
pub open spec fn crest(b: Basis, p: (int, int), k: nat, seed: u32, o: nat) -> int {
    exact::sharpened(ONE - smoothness::distance(octave_value(b, p, seed, o)), k)
}

/// The first `n` crests, each weighted twice as much as the next.
pub open spec fn crest_total(b: Basis, p: (int, int), k: nat, seed: u32, n: nat) -> int
    decreases n,
{
    if n == 0 {
        0
    } else {
        2 * crest_total(b, p, k, seed, (n - 1) as nat) + crest(b, p, k, seed, (n - 1) as nat)
    }
}

/// The pipeline's crests are these.
#[verifier::rlimit(40)]
proof fn lemma_crest(b: Basis, p: (int, int), sharpness: u32, seed: u32, o: nat)
    requires
        o <= u32::MAX,
    ensures
        exact::octave_ridge(b, Lat::at(p.0), Lat::at(p.1), sharpness, seed, o) == crest(
            b,
            p,
            sharpness as nat,
            seed,
            o,
        ),
        -ONE <= crest(b, p, sharpness as nat, seed, o) <= ONE,
{
    lemma_octave_value(b, p, seed, o);
    let r = ONE - smoothness::distance(octave_value(b, p, seed, o));
    lemma_sharpened_in_unit(r, sharpness as nat);
}

/// The sum of the first crests.
proof fn lemma_crest_sum_close(b: Basis, p: (int, int), sharpness: u32, seed: u32, n: nat)
    requires
        n <= 28,
    ensures
        ({
            let sum = exact::ridged_sum(b, Lat::at(p.0), Lat::at(p.1), sharpness, seed, n);
            let total = crest_total(b, p, sharpness as nat, seed, n);
            -(n * pow2(n)) <= sum * pow2(n) - 2 * total <= n * pow2(n)
        }),
    decreases n,
{
    if n == 0 {
        assert(0 * pow2(0) == 0) by (nonlinear_arith);
    } else {
        let o = (n - 1) as nat;
        let v = crest(b, p, sharpness as nat, seed, o);
        lemma_crest_sum_close(b, p, sharpness, seed, o);
        lemma_crest(b, p, sharpness, seed, o);
        lemma_term(o, v);
        lemma_one_more(
            o,
            exact::ridged_sum(b, Lat::at(p.0), Lat::at(p.1), sharpness, seed, o),
            crest_total(b, p, sharpness as nat, seed, o),
            fixed::times(fixed::amplitude(o), v),
            v,
        );
    }
}

/// A ridged sum of `n` octaves is the mean of their crests, weighted like a
/// fractal sum, up to `n + 5` steps.
pub proof fn lemma_ridged_is_weighted_mean(
    b: Basis,
    p: (int, int),
    octaves: u32,
    sharpness: u32,
    seed: u32,
)
    requires
        octaves <= 28,
    ensures
        ({
            let n = if octaves == 0 {
                1nat
            } else {
                octaves as nat
            };
            let w = pow2(n) - 1;
            let r = exact::ridged_noise(
                b,
                Lat::at(p.0),
                Lat::at(p.1),
                octaves,
                sharpness,
                seed,
                exact::norm_recip(octaves),
            );
            let total = crest_total(b, p, sharpness as nat, seed, n);
            -((n + 5) * w) <= r * w - total <= (n + 5) * w
        }),
{
    reveal(exact::ridged_noise);
    let k = if octaves == 0 {
        1u32
    } else {
        octaves
    };
    let n = k as nat;
    let sum = exact::ridged_sum(b, Lat::at(p.0), Lat::at(p.1), sharpness, seed, n);
    lemma_crest_sum_close(b, p, sharpness, seed, n);
    ranges::lemma_ridged_sum_range(b, Lat::at(p.0), Lat::at(p.1), sharpness, seed, n);
    fixed::lemma_amplitude_sum_bounds(n);
    smoothness::lemma_sum_fits(sum, ranges::ridge_floor(b), ONE as int, fixed::amplitude_sum(n));
    lemma_normalised(sum, k);
    lemma_mean(
        fixed::times(sum, exact::norm_recip(k)),
        sum,
        crest_total(b, p, sharpness as nat, seed, n),
        n,
    );
}

/// Crests past the 28th octave are too faint to count.
pub proof fn lemma_faint_crests(
    b: Basis,
    lx: Lat,
    ly: Lat,
    octaves: u32,
    sharpness: u32,
    seed: u32,
)
    requires
        octaves >= 28,
    ensures
        exact::ridged_noise(b, lx, ly, octaves, sharpness, seed, exact::norm_recip(octaves))
            == exact::ridged_noise(b, lx, ly, 28, sharpness, seed, exact::norm_recip(28)),
{
    reveal(exact::ridged_noise);
    lemma_faint_crest_sum(b, lx, ly, sharpness, seed, octaves as nat);
    fixed::lemma_amplitude_sum(octaves as nat);
    fixed::lemma_amplitude_sum(28);
    lemma2_to64();
}

proof fn lemma_faint_crest_sum(b: Basis, lx: Lat, ly: Lat, sharpness: u32, seed: u32, n: nat)
    requires
        n >= 28,
    ensures
        exact::ridged_sum(b, lx, ly, sharpness, seed, n) == exact::ridged_sum(
            b,
            lx,
            ly,
            sharpness,
            seed,
            28,
        ),
    decreases n,
{
    if n > 28 {
        let o = (n - 1) as nat;
        lemma_faint_crest_sum(b, lx, ly, sharpness, seed, o);
        fixed::lemma_amplitude_sum(o);
        fixed::lemma_product_identity(exact::octave_ridge(b, lx, ly, sharpness, seed, o));
    }
}

proof fn lemma_sharpened_in_unit(r: int, k: nat)
    requires
        -ONE <= r <= ONE,
    ensures
        -ONE <= exact::sharpened(r, k) <= ONE,
    decreases k,
{
    if k > 1 {
        lemma_sharpened_in_unit(r, (k - 1) as nat);
        fixed::lemma_product_shrinks(exact::sharpened(r, (k - 1) as nat), r);
    }
}

/// One crest more.
#[verifier::rlimit(40)]
proof fn lemma_crest_added(b: Basis, p: (int, int), sharpness: u32, seed: u32, n: nat)
    requires
        n < u32::MAX,
    ensures
        ({
            let (lx, ly) = (Lat::at(p.0), Lat::at(p.1));
            let term = exact::ridged_sum(b, lx, ly, sharpness, seed, n + 1) - exact::ridged_sum(
                b,
                lx,
                ly,
                sharpness,
                seed,
                n,
            );
            let v = crest(b, p, sharpness as nat, seed, n);
            &&& n == 0 ==> term == v
            &&& n < 28 ==> is_part(term, v, n)
            &&& n >= 28 ==> term == 0
            &&& smoothness::distance(term) <= fixed::amplitude(n)
        }),
{
    lemma_crest(b, p, sharpness, seed, n);
    lemma_terms(n, crest(b, p, sharpness as nat, seed, n));
    lemma_ridged_step(b, Lat::at(p.0), Lat::at(p.1), sharpness, seed, n);
}

/// A ridged sum of one octave more.
proof fn lemma_ridged_step(b: Basis, lx: Lat, ly: Lat, sharpness: u32, seed: u32, n: nat)
    ensures
        exact::ridged_sum(b, lx, ly, sharpness, seed, n + 1) == exact::ridged_sum(
            b,
            lx,
            ly,
            sharpness,
            seed,
            n,
        ) + fixed::times(
            fixed::amplitude(n),
            exact::octave_ridge(b, lx, ly, sharpness, seed, n),
        ),
{
}

/// A sum of crests is within the sum of the amplitudes.
proof fn lemma_crests_fit(b: Basis, p: (int, int), sharpness: u32, seed: u32, n: nat)
    requires
        n <= u32::MAX,
    ensures
        smoothness::distance(
            exact::ridged_sum(b, Lat::at(p.0), Lat::at(p.1), sharpness, seed, n),
        ) <= fixed::amplitude_sum(n),
    decreases n,
{
    if n > 0 {
        let o = (n - 1) as nat;
        lemma_crests_fit(b, p, sharpness, seed, o);
        lemma_crest_added(b, p, sharpness, seed, o);
    }
}

/// With a factor of one nothing is normalised.
proof fn lemma_crests_as_they_are(
    b: Basis,
    p: (int, int),
    octaves: u32,
    sharpness: u32,
    seed: u32,
    recip: int,
)
    ensures
        ({
            let (lx, ly) = (Lat::at(p.0), Lat::at(p.1));
            let sum = exact::ridged_sum(b, lx, ly, sharpness, seed, fixed::octave_count(octaves));
            &&& exact::ridged_noise(b, lx, ly, octaves, sharpness, seed, ONE as int) == sum
            &&& exact::ridged_noise(b, lx, ly, octaves, sharpness, seed, recip) == fixed::times(
                sum,
                recip,
            )
        }),
{
    reveal(exact::ridged_noise);
    let n = fixed::octave_count(octaves);
    lemma_crests_fit(b, p, sharpness, seed, n);
    fixed::lemma_amplitude_sum_bounds(n);
    let (lx, ly) = (Lat::at(p.0), Lat::at(p.1));
    fixed::lemma_product_identity(exact::ridged_sum(b, lx, ly, sharpness, seed, n));
}

/// Before it is normalised, a ridged sum is the crests added up one by one,
/// like the octaves of a fractal sum. Normalising multiplies the sum.
#[verifier::rlimit(40)]
pub proof fn lemma_crests_add_up(
    b: Basis,
    p: (int, int),
    octaves: u32,
    sharpness: u32,
    seed: u32,
    recip: int,
)
    requires
        1 <= octaves < u32::MAX,
    ensures
        ({
            let (lx, ly) = (Lat::at(p.0), Lat::at(p.1));
            let (one, k, more) = (ONE as int, sharpness as nat, (octaves + 1) as u32);
            let sum = exact::ridged_noise(b, lx, ly, octaves, sharpness, seed, one);
            let next = exact::ridged_noise(b, lx, ly, more, sharpness, seed, one);
            &&& exact::ridged_noise(b, lx, ly, 0, sharpness, seed, one) == crest(b, p, k, seed, 0)
            &&& exact::ridged_noise(b, lx, ly, 1, sharpness, seed, one) == crest(b, p, k, seed, 0)
            &&& octaves < 28 ==> is_part(
                next - sum,
                crest(b, p, k, seed, octaves as nat),
                octaves as nat,
            )
            &&& octaves >= 28 ==> next == sum
            &&& exact::ridged_noise(b, lx, ly, octaves, sharpness, seed, recip) == fixed::times(
                sum,
                recip,
            )
        }),
{
    lemma_crest_added(b, p, sharpness, seed, 0);
    lemma_crest_added(b, p, sharpness, seed, octaves as nat);
    lemma_crests_as_they_are(b, p, 0, sharpness, seed, recip);
    lemma_crests_as_they_are(b, p, 1, sharpness, seed, recip);
    lemma_crests_as_they_are(b, p, octaves, sharpness, seed, recip);
    lemma_crests_as_they_are(b, p, (octaves + 1) as u32, sharpness, seed, recip);
    assert(exact::ridged_sum(b, Lat::at(p.0), Lat::at(p.1), sharpness, seed, 0) == 0);
}

/// Sharpening raises to a power: a ridge `r` sharpened `k` times is `r` to
/// the power `k`, up to a step for each product. A sharpness of none is one.
pub proof fn lemma_sharpened_is_power(r: int, k: nat)
    requires
        -ONE <= r <= ONE,
    ensures
        exact::sharpened(r, 0) == r,
        k >= 1 ==> ({
            let unit = pow(ONE as int, (k - 1) as nat);
            -((k - 1) * unit) <= exact::sharpened(r, k) * unit - pow(r, k) <= (k - 1) * unit
        }),
    decreases k,
{
    reveal(pow);
    if k == 1 {
        assert(pow(r, 0) == 1 && pow(r, 1) == r * pow(r, 0));
        assert(pow(ONE as int, 0) == 1);
        assert(r * 1 == r);
    } else if k > 1 {
        let j = (k - 1) as nat;
        let s = ONE as int;
        lemma_sharpened_is_power(r, j);
        lemma_sharpened_in_unit(r, j);
        let x = exact::sharpened(r, j);
        fixed::lemma_product_shrinks(x, r);
        fixed::lemma_product_is_truncated(x, r);
        let y = exact::sharpened(r, k);
        assert(y == fixed::product(x, r));
        let (low, high) = (pow(s, (j - 1) as nat), pow(s, j));
        assert(high == s * low);
        lemma_pow_positive(s, (j - 1) as nat);
        assert(pow(r, k) == r * pow(r, j));
        let d = y * s - x * r;
        assert(-high <= d * low <= high) by (nonlinear_arith)
            requires
                -s < d < s,
                low > 0,
                high == s * low,
        ;
        let e = x * low - pow(r, j);
        let top = (j - 1) * low;
        assert(-(top * s) <= e * r <= top * s) by (nonlinear_arith)
            requires
                -top <= e <= top,
                -s <= r <= s,
        ;
        assert(d * low == y * high - (x * low) * r) by (nonlinear_arith)
            requires
                d == y * s - x * r,
                high == s * low,
        ;
        assert(e * r == (x * low) * r - r * pow(r, j)) by (nonlinear_arith)
            requires
                e == x * low - pow(r, j),
        ;
        assert(top * s + high == j * high) by (nonlinear_arith)
            requires
                top == (j - 1) * low,
                high == s * low,
        ;
    }
}

/// The bases: value and gradient noise as they are, and cellular noise
/// recentred, so that a feature point is at -1 and a cell away from the
/// nearest one is 1.
pub proof fn lemma_bases(lx: Lat, ly: Lat, seed: u32)
    ensures
        exact::basis_noise(Basis::Value, lx, ly, seed) == exact::value_noise(lx, ly, seed),
        exact::basis_noise(Basis::Gradient, lx, ly, seed) == exact::gradient_noise(lx, ly, seed),
        exact::basis_noise(Basis::Worley, lx, ly, seed) + ONE == 2 * exact::worley_noise(
            lx,
            ly,
            seed,
        ),
{
}

/// A number of steps `d` is the truncated product of `a` and `v`.
pub open spec fn is_product(d: int, a: int, v: int) -> bool {
    &&& smoothness::distance(d * ONE - a * v) < ONE
    &&& smoothness::distance(d) * ONE <= smoothness::distance(a * v)
}

/// The two-octave value noise that a domain is warped by, `x` and `y` steps
/// off to one side of a position.
pub open spec fn warp_field(p: (int, int), x: int, y: int, seed: u32) -> int {
    exact::fractal_noise(
        Basis::Value,
        Lat::at(p.0 + x),
        Lat::at(p.1 + y),
        2,
        seed,
        exact::norm_recip(2),
    )
}

/// A product that does not wrap around.
proof fn lemma_is_product(a: int, v: int)
    requires
        math::fits_i32(fixed::product(a, v)),
    ensures
        is_product(fixed::times(a, v), a, v),
{
    fixed::lemma_product_is_truncated(a, v);
}

/// Sharpening once more multiplies by the ridge once more.
pub proof fn lemma_sharpened_once_more(r: int, k: nat)
    requires
        -ONE <= r <= ONE,
        k >= 1,
    ensures
        exact::sharpened(r, 1) == r,
        is_product(exact::sharpened(r, k + 1), exact::sharpened(r, k), r),
{
    lemma_sharpened_in_unit(r, k);
    fixed::lemma_product_shrinks(r, exact::sharpened(r, k));
    fixed::lemma_product_commutes(r, exact::sharpened(r, k));
    lemma_is_product(exact::sharpened(r, k), r);
}

/// A warped pattern is the fractal sum at a displaced position. Horizontally
/// the position moves by the warp strength times the field 5.2 cells to the
/// right and 1.3 down, and vertically by as much of the field 1.7 cells to
/// the right and 9.2 down, each with a seed of its own.
pub proof fn lemma_warped_is_displaced(w: Prepared, p: (int, int)) -> (d: (int, int))
    requires
        w.recip2 == exact::norm_recip(2),
        w.warp_unwrapped(Lat::at(p.0), Lat::at(p.1)),
    ensures
        w.warped_noise(Lat::at(p.0), Lat::at(p.1)) == exact::fractal_noise(
            w.basis,
            Lat::at(p.0 + d.0),
            Lat::at(p.1 + d.1),
            w.octaves,
            w.seed,
            w.recip as int,
        ),
        d == w.displacement(Lat::at(p.0), Lat::at(p.1)),
        is_product(
            d.0,
            w.warp as int,
            warp_field(p, 697_932_160, 174_483_040, w.seed ^ 0x5f35_6495),
        ),
        is_product(
            d.1,
            w.warp as int,
            warp_field(p, 228_170_144, 1_234_803_072, w.seed ^ 0x3c6e_f372),
        ),
{
    let (lx, ly) = (Lat::at(p.0), Lat::at(p.1));
    let d = w.displacement(lx, ly);
    lattice::lemma_advance_composes(0, p.0, 697_932_160);
    lattice::lemma_advance_composes(0, p.1, 174_483_040);
    lattice::lemma_advance_composes(0, p.0, 228_170_144);
    lattice::lemma_advance_composes(0, p.1, 1_234_803_072);
    lattice::lemma_advance_composes(0, p.0, d.0);
    lattice::lemma_advance_composes(0, p.1, d.1);
    let (fx, fy) = w.warp_fields(lx, ly);
    assert(fx == warp_field(p, 697_932_160, 174_483_040, w.seed ^ 0x5f35_6495));
    assert(fy == warp_field(p, 228_170_144, 1_234_803_072, w.seed ^ 0x3c6e_f372));
    lemma_is_product(w.warp as int, fx);
    lemma_is_product(w.warp as int, fy);
    d
}

/// A warp of nothing displaces nothing.
pub proof fn lemma_no_warp(w: Prepared, lx: Lat, ly: Lat)
    requires
        w.warp == 0,
        lx.wf(),
        ly.wf(),
    ensures
        w.displacement(lx, ly) == (0int, 0int),
        w.warped_noise(lx, ly) == exact::fractal_noise(
            w.basis,
            lx,
            ly,
            w.octaves,
            w.seed,
            w.recip as int,
        ),
{
    let (fx, fy) = w.warp_fields(lx, ly);
    fixed::lemma_product_identity(fx);
    fixed::lemma_product_identity(fy);
    lattice::lemma_at_own_position(lx);
    lattice::lemma_at_own_position(ly);
}

} // verus!
