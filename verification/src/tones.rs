//! What a sample is: how a material's knobs are read, and how its pattern
//! becomes a number in `[0, 1]`.

use vstd::arithmetic::div_mod::*;
use vstd::arithmetic::power2::*;
use vstd::prelude::*;

use crate::exact;
use crate::exact::{Lat, Prepared};
use crate::fixed;
use crate::fixed::ONE;
use crate::ieee;
use crate::ieee::F32;
use crate::material::{Material, Pattern};
use crate::octaves;
use crate::seam;
use crate::smoothness;

verus! {

/// A Q4.27 number is what a binary32 number converts to: its value with the
/// fraction of a step dropped, the nearest end of the format where it lies
/// outside, and zero where it is not a number.
pub open spec fn reads_as(f: F32, c: int) -> bool {
    let w = seam::weight(f);
    let limit = 0x8000_0000 * pow2(122);
    if f.nan() {
        c == 0
    } else if w >= limit {
        c == i32::MAX
    } else if w <= -limit {
        c == i32::MIN
    } else {
        &&& smoothness::distance(c) * pow2(122) <= smoothness::distance(w)
        &&& smoothness::distance(w) < (smoothness::distance(c) + 1) * pow2(122)
        &&& c > 0 ==> w > 0
        &&& c < 0 ==> w < 0
    }
}

/// Conversion truncates towards zero and saturates.
pub proof fn lemma_converted_truncates(f: F32)
    ensures
        reads_as(f, fixed::converted(f)),
{
    if !f.nan() {
        let (sig, e) = (f.sig(), f.exp() + 27);
        let x = (f.exp() + 149) as nat;
        let m = ieee::floor_scaled(sig, e) as int;
        let w = (sig * pow2(x)) as int;
        let h = pow2(122) as int;
        lemma_pow2_pos(122);
        lemma_pow2_pos(x);
        assert(m * h <= w < (m + 1) * h) by {
            if e >= 0 {
                lemma_pow2_adds(e as nat, 122);
                assert(w == m * h) by (nonlinear_arith)
                    requires
                        w == sig * pow2(x),
                        m == sig * pow2(e as nat),
                        pow2(x) == pow2(e as nat) * h,
                ;
                assert((m + 1) * h == m * h + h) by (nonlinear_arith);
            } else {
                let d = (-e) as nat;
                let unit = pow2(d) as int;
                lemma_pow2_pos(d);
                lemma_pow2_adds(x, d);
                lemma_fundamental_div_mod(sig as int, unit);
                lemma_mod_bound(sig as int, unit);
                let y = pow2(x) as int;
                assert(m * unit <= sig < (m + 1) * unit) by (nonlinear_arith)
                    requires
                        sig == unit * m + (sig as int) % unit,
                        0 <= (sig as int) % unit < unit,
                ;
                assert((m * unit) * y <= sig * y && sig * y < ((m + 1) * unit) * y)
                    by (nonlinear_arith)
                    requires
                        m * unit <= sig,
                        sig < (m + 1) * unit,
                        y > 0,
                ;
                assert((m * unit) * y == m * h && ((m + 1) * unit) * y == (m + 1) * h)
                    by (nonlinear_arith)
                    requires
                        h == y * unit,
                ;
            }
        }
        assert(m >= 0);
        assert(m >= 0x8000_0000 ==> m * h >= 0x8000_0000 * h) by (nonlinear_arith)
            requires
                h > 0,
        ;
        assert(m < 0x8000_0000 ==> (m + 1) * h <= 0x8000_0000 * h) by (nonlinear_arith)
            requires
                h > 0,
        ;
        assert(m > 0 ==> m * h > 0) by (nonlinear_arith)
            requires
                h > 0,
        ;
    }
}

/// The synthesis reads a material's knobs as they are: the basis, the pattern
/// and the seed unchanged, at least one octave and a sharpness of at least
/// one, and the warp, the contrast and the pivot each converted.
pub proof fn lemma_prepared_reads_knobs(m: Material)
    ensures
        ({
            let p = exact::prepared(m);
            &&& p.basis == m.basis
            &&& p.pattern == m.pattern
            &&& p.seed == m.seed
            &&& m.octaves >= 1 ==> p.octaves == m.octaves
            &&& m.octaves == 0 ==> p.octaves == 1
            &&& m.sharpness >= 1 ==> p.sharpness == m.sharpness
            &&& m.sharpness == 0 ==> p.sharpness == 1
            &&& reads_as(m.warp, p.warp as int)
            &&& reads_as(m.contrast, p.contrast as int)
            &&& reads_as(m.pivot, p.pivot as int)
            &&& p.recip == exact::norm_recip(m.octaves)
            &&& p.recip == exact::norm_recip(p.octaves)
            &&& p.recip2 == exact::norm_recip(2)
        }),
{
    lemma_converted_truncates(m.warp);
    lemma_converted_truncates(m.contrast);
    lemma_converted_truncates(m.pivot);
    exact::lemma_norm_recip(m.octaves);
    exact::lemma_norm_recip(2);
}

/// The pattern of a material is the sum that its name says.
pub proof fn lemma_pattern_is_its_sum(w: Prepared, lx: Lat, ly: Lat)
    ensures
        w.pattern == Pattern::Fractal ==> w.pattern_noise(lx, ly) == exact::fractal_noise(
            w.basis,
            lx,
            ly,
            w.octaves,
            w.seed,
            w.recip as int,
        ),
        w.pattern == Pattern::Ridged ==> w.pattern_noise(lx, ly) == exact::ridged_noise(
            w.basis,
            lx,
            ly,
            w.octaves,
            w.sharpness,
            w.seed,
            w.recip as int,
        ),
        w.pattern == Pattern::Warped ==> w.pattern_noise(lx, ly) == w.warped_noise(lx, ly),
{
}

/// A signed pattern becomes a lightness by taking `[-1, 1]` to `[0, 1]`, with
/// half a step dropped, and a ridged one is a lightness already.
pub proof fn lemma_lightness_of_pattern(w: Prepared, lx: Lat, ly: Lat)
    ensures
        ({
            let (raw, light) = (w.pattern_noise(lx, ly), w.lightness(lx, ly));
            if w.pattern == Pattern::Ridged {
                light == raw
            } else {
                0 <= raw + ONE - 2 * light <= 1
            }
        }),
{
}

/// The nearest number in `[0, 1]`.
pub open spec fn clamped(v: int) -> int {
    if v < 0 {
        0
    } else if v > ONE {
        ONE as int
    } else {
        v
    }
}

/// Contrast stretches lightness about the pivot: where no product wraps
/// around, the sample is as far from the pivot as the contrast times what the
/// lightness is, and then clamped.
pub proof fn lemma_tone_is_stretched(w: Prepared, lx: Lat, ly: Lat) -> (v: int)
    requires
        w.unwrapped(lx, ly),
    ensures
        octaves::is_product(v - w.pivot, w.contrast as int, w.lightness(lx, ly) - w.pivot),
        w.tone(lx, ly) == clamped(v),
{
    let (d, c) = (w.lightness(lx, ly) - w.pivot, w.contrast as int);
    let v = w.remapped(lx, ly);
    fixed::lemma_product_is_truncated(d, c);
    assert(c * d == d * c) by (nonlinear_arith);
    v
}

/// A sample can be taken exactly where nothing on the way to it leaves the
/// format: the displaced offsets, the distance of the lightness from the
/// pivot, and the stretched lightness.
pub proof fn lemma_fits_unless_it_overflows(w: Prepared, lx: Lat, ly: Lat)
    ensures
        ({
            let (dx, dy) = w.displacement(lx, ly);
            let d = w.lightness(lx, ly) - w.pivot;
            let holds = |n: int| -0x8000_0000 <= n <= 0x7fff_ffff;
            w.fits(lx, ly) <==> {
                &&& w.pattern == Pattern::Warped ==> holds(lx.frac + dx) && holds(ly.frac + dy)
                &&& holds(d)
                &&& holds(fixed::times(d, w.contrast as int) + w.pivot)
            }
        }),
{
}

/// A sample is its tone, rounded to 24 digits: it is off by at most four
/// steps, and exact where 24 digits hold the tone.
pub proof fn lemma_sample_is_its_tone(w: Prepared, lx: Lat, ly: Lat)
    ensures
        ({
            let (v, tone) = (w.sampled(lx, ly), w.tone(lx, ly));
            &&& !v.nan()
            &&& !v.neg()
            &&& 0 <= tone <= ONE
            &&& smoothness::distance(seam::weight(v) - tone * pow2(122)) <= 4 * pow2(122)
            &&& tone < 0x100_0000 || tone % 16 == 0 ==> seam::weight(v) == tone * pow2(122)
        }),
{
    let n = w.tone(lx, ly) as nat;
    let v = w.sampled(lx, ly);
    let h = pow2(122) as int;
    lemma2_to64();
    lemma_pow2_pos(122);
    fixed::lemma_unit_to_f32(n as int);
    if n == 0 {
        assert(0 * pow2((v.exp() + 149) as nat) == 0 && 0 * h == 0) by (nonlinear_arith);
    } else {
        let len = ieee::bit_length(n);
        ieee::lemma_bit_length(n);
        ieee::lemma_bit_length_below(n, 28);
        ieee::lemma_nearest_f32_parts(false, n, -27);
        let s = ieee::significand(n, 24);
        let y = (len + 98) as nat;
        assert(v.sig() * pow2((v.exp() + 149) as nat) == s * pow2(y)) by {
            if s == 0x100_0000 {
                lemma_pow2_unfold((y + 1) as nat);
                assert(0x80_0000 * pow2(y + 1) == s * pow2(y)) by (nonlinear_arith)
                    requires
                        pow2(y + 1) == 2 * pow2(y),
                        s == 0x100_0000,
                ;
            }
        }
        if len <= 24 {
            let c = (24 - len) as nat;
            lemma_pow2_adds(c, y);
            assert(s * pow2(y) == n * h) by (nonlinear_arith)
                requires
                    s == n * pow2(c),
                    h == pow2(c) * pow2(y),
            ;
        } else {
            lemma_long_tone(n, s, len, y);
        }
    }
}

/// A tone of more than 24 digits.
proof fn lemma_long_tone(n: nat, s: nat, len: nat, y: nat)
    requires
        24 < len <= 28,
        n <= ONE,
        len == ieee::bit_length(n),
        pow2((len - 1) as nat) <= n,
        s == ieee::significand(n, 24),
        y == len + 98,
    ensures
        smoothness::distance(s * pow2(y) - n * pow2(122)) <= 4 * pow2(122),
        n < 0x100_0000 || n % 16 == 0 ==> s * pow2(y) == n * pow2(122),
{
    let k = (len - 24) as nat;
    let (u, h) = (pow2(k) as int, pow2(122) as int);
    lemma2_to64();
    lemma_pow2_pos(k);
    lemma_pow2_pos(122);
    lemma_pow2_adds(k, 122);
    ieee::lemma_nearest_even(n, pow2(k));
    let d = s * u - n;
    assert(s * pow2(y) - n * h == d * h) by (nonlinear_arith)
        requires
            pow2(y) == u * h,
            d == s * u - n,
    ;
    if n % 16 == 0 {
        assert(n % pow2(k) == 0) by {
            assert(n % 2 == 0 && n % 4 == 0 && n % 8 == 0);
            assert(k == 1 || k == 2 || k == 3 || k == 4);
        }
        lemma_fundamental_div_mod(n as int, u);
        assert(s * u == n) by (nonlinear_arith)
            requires
                s == n / pow2(k),
                n == u * (n / pow2(k)),
        ;
        assert(0 * h == 0) by (nonlinear_arith);
    }
    assert(-4 <= d <= 4) by {
        if len == 28 {
            assert(n == ONE);
        }
    }
    assert(-(4 * h) <= d * h <= 4 * h) by (nonlinear_arith)
        requires
            -4 <= d <= 4,
            h > 0,
    ;
}

} // verus!
