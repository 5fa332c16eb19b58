//! What the knobs of a material hold: which numbers they take, and when two
//! materials are one.

use vstd::arithmetic::div_mod::*;
use vstd::arithmetic::power2::*;
use vstd::prelude::*;

use crate::exact;
use crate::exact::Lat;
use crate::fixed;
use crate::ieee;
use crate::ieee::{F32, F64};
use crate::lattice;
use crate::material;
use crate::material::{Material, Tile, TileId};
use crate::numbers;
use crate::seam::weight;
use crate::smoothness::distance;

verus! {

/// An integer knob takes the nearest integer, the larger of two; at least one,
/// and at most what 32 bits hold. What is not a number gives one.
pub proof fn lemma_count_is_nearest(v: F32)
    ensures
        ({
            let c = material::count_from_f32(v);
            let (w, unit) = (weight(v), pow2(149) as int);
            &&& 1 <= c <= u32::MAX
            &&& v.nan() ==> c == 1
            &&& !v.nan() && c > 1 ==> 2 * w >= (2 * c - 1) * unit
            &&& !v.nan() && c < u32::MAX ==> 2 * w < (2 * c + 1) * unit
        }),
{
    let c = material::count_from_f32(v);
    let (w, unit) = (weight(v), pow2(149) as int);
    lemma_pow2_pos(149);
    if !v.nan() {
        let x = (v.exp() + 149) as nat;
        let m = (v.sig() * pow2(x)) as int;
        let t = ieee::floor_scaled(v.sig(), v.exp() + 1) as int;
        let n = (t + 1) / 2;
        lemma_pow2_pos(x);
        assert(m >= 0) by (nonlinear_arith)
            requires
                m == v.sig() * pow2(x),
                pow2(x) > 0,
        ;
        assert(t * unit <= 2 * m < (t + 1) * unit) by {
            lemma_twice(v.sig(), x);
        }
        if v.neg() {
            assert((2 * c + 1) * unit > 0) by (nonlinear_arith)
                requires
                    c >= 1,
                    unit > 0,
            ;
        } else {
            assert(2 * n - 1 <= t <= 2 * n);
            assert((2 * n - 1) * unit <= t * unit && (t + 1) * unit <= (2 * n + 1) * unit)
                by (nonlinear_arith)
                requires
                    2 * n - 1 <= t,
                    t <= 2 * n,
                    unit > 0,
            ;
            assert(c <= n ==> (2 * c - 1) * unit <= (2 * n - 1) * unit) by (nonlinear_arith)
                requires
                    unit > 0,
            ;
            assert(c >= n ==> (2 * n + 1) * unit <= (2 * c + 1) * unit) by (nonlinear_arith)
                requires
                    unit > 0,
            ;
        }
    }
}

/// The floor of twice a number, in units of 2^-149.
proof fn lemma_twice(sig: nat, x: nat)
    ensures
        ({
            let t = ieee::floor_scaled(sig, x - 148);
            t * pow2(149) <= 2 * (sig * pow2(x)) < (t + 1) * pow2(149)
        }),
{
    let t = ieee::floor_scaled(sig, x - 148) as int;
    let unit = pow2(149) as int;
    let m = (sig * pow2(x)) as int;
    lemma_pow2_pos(149);
    lemma_pow2_unfold(x + 1);
    assert(2 * m == sig * pow2(x + 1)) by (nonlinear_arith)
        requires
            m == sig * pow2(x),
            pow2(x + 1) == 2 * pow2(x),
    ;
    if x >= 148 {
        let e = (x - 148) as nat;
        lemma_pow2_adds(e, 149);
        assert(t * unit == 2 * m && (t + 1) * unit == 2 * m + unit) by (nonlinear_arith)
            requires
                t == sig * pow2(e),
                2 * m == sig * pow2(x + 1),
                pow2(x + 1) == pow2(e) * unit,
        ;
    } else {
        let d = (148 - x) as nat;
        let (y, z) = (pow2(d) as int, pow2(x + 1) as int);
        lemma_pow2_adds(x + 1, d);
        lemma_pow2_pos(d);
        lemma_pow2_pos(x + 1);
        lemma_fundamental_div_mod(sig as int, y);
        lemma_mod_bound(sig as int, y);
        assert(t * y <= sig < (t + 1) * y) by (nonlinear_arith)
            requires
                sig == y * t + (sig as int) % y,
                0 <= (sig as int) % y < y,
        ;
        assert((t * y) * z <= sig * z && sig * z < ((t + 1) * y) * z) by (nonlinear_arith)
            requires
                t * y <= sig,
                sig < (t + 1) * y,
                z > 0,
        ;
        assert((t * y) * z == t * unit && ((t + 1) * y) * z == (t + 1) * unit) by (nonlinear_arith)
            requires
                unit == z * y,
        ;
    }
}

/// The frequency takes a number that is not negative as it is, and zero for
/// any other and for what is not a number.
pub proof fn lemma_frequency_is_clamped(v: F32)
    ensures
        ({
            let f = material::frequency_from_f32(v);
            &&& !f.nan() && !f.neg()
            &&& v.nan() || weight(v) <= 0 ==> weight(f) == 0
            &&& !v.nan() && weight(v) > 0 ==> f == v
        }),
{
    let x = (v.exp() + 149) as nat;
    let zero = F32 { bits: 0 };
    assert(zero.sig() == 0);
    assert(0 * pow2((zero.exp() + 149) as nat) == 0);
    assert(v.sig() * pow2(x) >= 0) by (nonlinear_arith);
}

/// Setting a knob changes that knob alone: a float knob to the value itself,
/// the frequency and the integer knobs to what they take from it. There is no
/// knob past the last.
pub proof fn lemma_knob_is_set(m: Material, i: int, v: F32)
    ensures
        ({
            let n = m.with_knob_value(i, v);
            &&& n.basis == m.basis && n.pattern == m.pattern
            &&& n.pivot == m.pivot && n.seed == m.seed
            &&& n.frequency == if i == 0 {
                material::frequency_from_f32(v)
            } else {
                m.frequency
            }
            &&& n.octaves == if i == 1 {
                material::count_from_f32(v)
            } else {
                m.octaves as int
            }
            &&& n.sharpness == if i == 2 {
                material::count_from_f32(v)
            } else {
                m.sharpness as int
            }
            &&& n.warp == if i == 3 {
                v
            } else {
                m.warp
            }
            &&& n.contrast == if i == 4 {
                v
            } else {
                m.contrast
            }
        }),
        m.knob_value(i) is Some <==> 0 <= i < 5,
        !(0 <= i < 5) ==> m.with_knob_value(i, v) == m,
{
    lemma_count_is_nearest(v);
}

/// A knob reads as the number it holds; an integer knob as that integer where
/// 24 digits hold it, and otherwise within its 2^24th part.
pub proof fn lemma_knob_reads(m: Material)
    ensures
        m.knob_value(0) == Some(m.frequency),
        m.knob_value(1) matches Some(v) && reads_as_count(v, m.octaves as int),
        m.knob_value(2) matches Some(v) && reads_as_count(v, m.sharpness as int),
        m.knob_value(3) == Some(m.warp),
        m.knob_value(4) == Some(m.contrast),
{
    lemma_count_as_weight(m.octaves);
    lemma_count_as_weight(m.sharpness);
}

/// A binary32 number is an integer, up to its 2^24th part where 24 digits do
/// not hold it.
pub open spec fn reads_as_count(v: F32, n: int) -> bool {
    let (w, exact) = (weight(v), n * pow2(149));
    &&& !v.nan()
    &&& n < 0x100_0000 ==> w == exact
    &&& distance(w - exact) * pow2(24) <= exact
}

/// An integer converts to the nearest binary32 number.
proof fn lemma_count_as_weight(n: u32)
    ensures
        reads_as_count(material::count_as_f32(n), n as int),
{
    let v = material::count_as_f32(n);
    if n == 0 {
        assert(v.bits == 0 && v.sig() == 0);
        assert(0 * pow2((v.exp() + 149) as nat) == 0 && 0 * pow2(149) == 0 && 0 * pow2(24) == 0)
            by (nonlinear_arith);
    } else {
        lemma2_to64();
        ieee::lemma_bit_length_below(n as nat, 32);
        ieee::lemma_bit_length(n as nat);
        numbers::lemma_nearest_f32_close(false, n as nat, 0);
    }
}

/// What equal numbers convert to is equal.
proof fn lemma_same_converts(a: F32, b: F32)
    requires
        a.same(b),
    ensures
        fixed::converted(a) == fixed::converted(b),
{
    if a.sig() == 0 && b.sig() == 0 {
        lemma_zero_scaled(a.exp() + 27);
        lemma_zero_scaled(b.exp() + 27);
    }
}

/// Zero stays zero at any scale.
proof fn lemma_zero_scaled(e: int)
    ensures
        ieee::floor_scaled(0, e) == 0,
{
    if e >= 0 {
        assert(0 * pow2(e as nat) == 0);
    } else {
        lemma_pow2_pos((-e) as nat);
        lemma_div_of0(pow2((-e) as nat) as int);
    }
}

/// A frequency of zero, with either sign, puts every tile at the origin.
proof fn lemma_no_frequency(m: Material, x: i64)
    requires
        m.frequency.sig() == 0,
    ensures
        m.tile_origin(x) == (Lat { cell: 0, frac: 0 }),
{
    let f = m.frequency;
    let a = F64 { bits: ieee::nearest_f64(x < 0, ieee::magnitude(x as int), 0) as u64 };
    assert(a.sig() * f.sig() == 0) by (nonlinear_arith)
        requires
            f.sig() == 0,
    ;
    let v = ieee::scaled(x, f);
    assert(v.bits == 0 || v.bits == 0x8000_0000_0000_0000);
    assert(v.sig() == 0 && v.exp() == -1074);
    lattice::lemma_split_tiny(v.neg(), v.sig(), v.exp());
}

/// Equal materials render the same tiles, sample by sample, and fit the
/// format on the same tiles.
pub proof fn lemma_same_renders(m: Material, n: Material, tile: TileId, size: u32)
    requires
        m.same(n),
    ensures
        forall|i: int| #[trigger] m.pixel(tile, size, i) == n.pixel(tile, size, i),
        forall|i: int| #[trigger] m.pixel_fits(tile, size, i) == n.pixel_fits(tile, size, i),
        m.tile_fits(tile, size) == n.tile_fits(tile, size),
        forall|t: Tile| #[trigger] m.renders(tile, size, t) == n.renders(tile, size, t),
{
    lemma_same_converts(m.warp, n.warp);
    lemma_same_converts(m.contrast, n.contrast);
    lemma_same_converts(m.pivot, n.pivot);
    if m.frequency.bits == n.frequency.bits {
        assert(m.frequency == n.frequency);
    } else {
        lemma_no_frequency(m, tile.x);
        lemma_no_frequency(m, tile.y);
        lemma_no_frequency(n, tile.x);
        lemma_no_frequency(n, tile.y);
    }
    assert(exact::prepared(m) == exact::prepared(n));
    assert(m.tile_origin(tile.x) == n.tile_origin(tile.x));
    assert(m.tile_origin(tile.y) == n.tile_origin(tile.y));
    assert(exact::pixel_step(m.frequency, size) == exact::pixel_step(n.frequency, size));
    assert forall|i: int| #[trigger] m.pixel(tile, size, i) == n.pixel(tile, size, i) by {}
    assert forall|i: int| #[trigger] m.pixel_fits(tile, size, i) == n.pixel_fits(tile, size, i) by {
    }
    if m.tile_fits(tile, size) {
        assert forall|i: int| 0 <= i < size * size implies #[trigger] n.pixel_fits(
            tile,
            size,
            i,
        ) by {
            assert(m.pixel_fits(tile, size, i));
        }
    }
    assert forall|t: Tile| #[trigger] m.renders(tile, size, t) == n.renders(tile, size, t) by {
        assert(forall|i: int| #[trigger] m.pixel(tile, size, i) == n.pixel(tile, size, i));
    }
}

/// Materials are equal where every choice is, and every number: a material is
/// equal to itself unless one of its numbers is not one.
pub proof fn lemma_same_material(m: Material, n: Material)
    ensures
        m.same(n) <==> {
            &&& m.basis == n.basis && m.pattern == n.pattern
            &&& m.octaves == n.octaves && m.sharpness == n.sharpness && m.seed == n.seed
            &&& !m.frequency.nan() && !m.warp.nan() && !m.contrast.nan() && !m.pivot.nan()
            &&& !n.frequency.nan() && !n.warp.nan() && !n.contrast.nan() && !n.pivot.nan()
            &&& weight(m.frequency) == weight(n.frequency) && weight(m.warp) == weight(n.warp)
            &&& weight(m.contrast) == weight(n.contrast) && weight(m.pivot) == weight(n.pivot)
        },
{
    numbers::lemma_same_is_equal(m.frequency, n.frequency);
    numbers::lemma_same_is_equal(m.warp, n.warp);
    numbers::lemma_same_is_equal(m.contrast, n.contrast);
    numbers::lemma_same_is_equal(m.pivot, n.pivot);
}

/// Tiles are equal where their sizes are and every sample is, as a number.
pub proof fn lemma_same_tile(t: Tile, u: Tile)
    ensures
        t.same(u) <==> {
            &&& t.size == u.size && t.data@.len() == u.data@.len()
            &&& forall|i: int|
                0 <= i < t.data@.len() ==> !(#[trigger] t.data@[i]).nan() && !u.data@[i].nan()
                    && weight(t.data@[i]) == weight(u.data@[i])
        },
{
    assert forall|a: F32, b: F32| #[trigger] a.same(b) <==> !a.nan() && !b.nan() && weight(a)
        == weight(b) by {
        numbers::lemma_same_is_equal(a, b);
    }
}

} // verus!
