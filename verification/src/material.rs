//! Materials: the knobs a texture artist actually turns.
//!
//! A [`Material`] is a small parameter record plus a seed. It is a *value*,
//! not a builder or a graph: fixing the topology and exposing scalars is
//! what lets a stability analysis jitter named knobs and re-run.

use vstd::arithmetic::power2::*;
use vstd::prelude::*;

use crate::ieee;
use crate::ieee::F32;
use crate::math;
use crate::noise::Basis;
use crate::numbers;
use crate::png;
use crate::png_reader;
use crate::seam;
use crate::shades;

verus! {

/// Which fractal construction to use.
#[derive(Debug, Clone, Copy, PartialEq, Eq, Structural)]
pub enum Pattern {
    /// Plain fractal sum. Cloudy.
    Fractal,
    /// `1 - abs(n)`, sharpened. Ridges, veins, cracks.
    Ridged,
    /// Fractal sum through a displaced domain. Marbled, eroded.
    Warped,
}

/// A procedural material.
///
/// Every field except `basis`, `pattern` and `seed` is a knob, which is what
/// a stability analysis perturbs. In executable code `==` compares the knobs
/// as numbers; see [`Material::same`].
#[derive(Debug, Clone, Copy)]
pub struct Material {
    /// Which noise primitive the fractal sum is built from.
    pub basis: Basis,
    /// Which fractal construction to apply.
    pub pattern: Pattern,
    /// Features per unit of texture space. The dominant scale knob.
    pub frequency: F32,
    /// Octaves in the fractal sum. Detail depth.
    pub octaves: u32,
    /// Ridge exponent; only read when `pattern` is [`Pattern::Ridged`].
    pub sharpness: u32,
    /// Domain displacement; only read when `pattern` is
    /// [`Pattern::Warped`].
    pub warp: F32,
    /// Output remap: `contrast * (n - pivot) + pivot`, then clamped.
    pub contrast: F32,
    /// Value the contrast remap pivots about.
    pub pivot: F32,
    /// Field seed. Changes the pattern without changing its character.
    pub seed: u32,
}

impl Material {
    /// Equal in every field, with floating-point knobs compared as numbers.
    pub open spec fn same(self, other: Material) -> bool {
        &&& self.basis == other.basis
        &&& self.pattern == other.pattern
        &&& self.frequency.same(other.frequency)
        &&& self.octaves == other.octaves
        &&& self.sharpness == other.sharpness
        &&& self.warp.same(other.warp)
        &&& self.contrast.same(other.contrast)
        &&& self.pivot.same(other.pivot)
        &&& self.seed == other.seed
    }
}

impl PartialEq for Material {
    fn eq(&self, other: &Self) -> (r: bool) {
        self.basis == other.basis && self.pattern == other.pattern && self.frequency
            == other.frequency && self.octaves == other.octaves && self.sharpness
            == other.sharpness && self.warp == other.warp && self.contrast == other.contrast
            && self.pivot == other.pivot && self.seed == other.seed
    }
}

impl vstd::std_specs::cmp::PartialEqSpecImpl for Material {
    open spec fn obeys_eq_spec() -> bool {
        true
    }

    open spec fn eq_spec(&self, other: &Self) -> bool {
        self.same(*other)
    }
}

impl Default for Material {
    fn default() -> (r: Self)
        ensures
            r == (Material {
                basis: Basis::Gradient,
                pattern: Pattern::Fractal,
                frequency: F32 { bits: 0x4080_0000 },
                octaves: 5,
                sharpness: 2,
                warp: F32 { bits: 0 },
                contrast: F32 { bits: 0x3f80_0000 },
                pivot: F32 { bits: 0x3f00_0000 },
                seed: 0,
            }),
            seam::weight(r.frequency) == 4 * pow2(149),
            seam::weight(r.warp) == 0,
            seam::weight(r.contrast) == pow2(149),
            2 * seam::weight(r.pivot) == pow2(149),
    {
        proof {
            numbers::lemma_default_knobs();
        }
        Material {
            basis: Basis::Gradient,
            pattern: Pattern::Fractal,
            // 4
            frequency: F32 { bits: 0x4080_0000 },
            octaves: 5,
            sharpness: 2,
            warp: F32 { bits: 0 },
            // 1
            contrast: F32 { bits: 0x3f80_0000 },
            // 1/2
            pivot: F32 { bits: 0x3f00_0000 },
            seed: 0,
        }
    }
}

/// An integer knob as binary32: the nearest number.
pub open spec fn count_as_f32(n: u32) -> F32 {
    F32 { bits: ieee::nearest_f32(false, n as nat, 0) as u32 }
}

/// What an integer knob takes from a binary32 value: the nearest integer,
/// the one away from zero of two, but at least one. What is not a number
/// gives one.
pub open spec fn count_from_f32(v: F32) -> int {
    let n = (ieee::floor_scaled(v.sig(), v.exp() + 1) + 1) / 2;
    if v.nan() || v.neg() || n < 1 {
        1
    } else if n > u32::MAX {
        u32::MAX as int
    } else {
        n as int
    }
}

/// What the frequency knob takes from a binary32 value: the value, but zero
/// for a negative one and for what is not a number.
pub open spec fn frequency_from_f32(v: F32) -> F32 {
    if v.nan() || v.neg() {
        F32 { bits: 0 }
    } else {
        v
    }
}

impl Material {
    /// The named knobs, in a fixed order.
    ///
    /// The order is part of the interface: sensitivities are reported
    /// positionally, and a caller comparing two runs needs the columns to
    /// line up.
    pub const KNOBS: [&'static str; 5] = ["frequency", "octaves", "sharpness", "warp", "contrast"];

    /// Whether each knob takes only integers, rather than a continuum of
    /// values. A small relative nudge on such a knob rounds straight back.
    pub const KNOB_QUANTISED: [bool; 5] = [false, true, true, false, false];

    /// The value of knob `i`.
    pub open spec fn knob_value(self, i: int) -> Option<F32> {
        if i == 0 {
            Some(self.frequency)
        } else if i == 1 {
            Some(count_as_f32(self.octaves))
        } else if i == 2 {
            Some(count_as_f32(self.sharpness))
        } else if i == 3 {
            Some(self.warp)
        } else if i == 4 {
            Some(self.contrast)
        } else {
            None
        }
    }

    /// Read a knob by index. Returns `None` past the end.
    pub fn knob(&self, i: usize) -> (r: Option<F32>)
        ensures
            r == self.knob_value(i as int),
    {
        match i {
            0 => Some(self.frequency),
            1 => Some(count_to_f32(self.octaves)),
            2 => Some(count_to_f32(self.sharpness)),
            3 => Some(self.warp),
            4 => Some(self.contrast),
            _ => None,
        }
    }

    /// The material with knob `i` set to `v`.
    pub open spec fn with_knob_value(self, i: int, v: F32) -> Material {
        if i == 0 {
            Material { frequency: frequency_from_f32(v), ..self }
        } else if i == 1 {
            Material { octaves: count_from_f32(v) as u32, ..self }
        } else if i == 2 {
            Material { sharpness: count_from_f32(v) as u32, ..self }
        } else if i == 3 {
            Material { warp: v, ..self }
        } else if i == 4 {
            Material { contrast: v, ..self }
        } else {
            self
        }
    }

    /// Return a copy with knob `i` set to `v`.
    ///
    /// Integer-valued knobs round and clamp to at least one, so a
    /// perturbation cannot produce a zero-octave material.
    pub fn with_knob(self, i: usize, v: F32) -> (r: Self)
        ensures
            r == self.with_knob_value(i as int, v),
    {
        let mut m: Material = self;
        match i {
            0 => {
                m.frequency = nonnegative(v);
            },
            1 => {
                m.octaves = round_count(v);
            },
            2 => {
                m.sharpness = round_count(v);
            },
            3 => {
                m.warp = v;
            },
            4 => {
                m.contrast = v;
            },
            _ => {},
        }
        m
    }
}

/// Convert an integer knob to binary32.
fn count_to_f32(n: u32) -> (r: F32)
    ensures
        r == count_as_f32(n),
{
    proof {
        lemma2_to64();
        ieee::lemma_bit_length_below(n as nat, 32);
        ieee::lemma_bit_length(n as nat);
    }
    ieee::round_f32(false, n as u128, 0)
}

/// Round a binary32 value for an integer knob.
fn round_count(v: F32) -> (r: u32)
    ensures
        r == count_from_f32(v),
{
    match v.unpack() {
        None => 1,
        Some((neg, sig, exp)) => {
            let twice: u128 = ieee::floor_scale(sig as u128, exp + 1, 0x4_0000_0000);
            let n: u128 = (twice + 1) / 2;
            if neg || n < 1 {
                1
            } else if n > 0xffff_ffff {
                u32::MAX
            } else {
                n as u32
            }
        },
    }
}

/// Replace a negative value, and what is not a number, by zero.
fn nonnegative(v: F32) -> (r: F32)
    ensures
        r == frequency_from_f32(v),
{
    match v.unpack() {
        None => F32 { bits: 0 },
        Some((neg, _, _)) => if neg {
            F32 { bits: 0 }
        } else {
            v
        },
    }
}

/// Setting a knob leaves at least one octave and a sharpness of at least
/// one, if there were, and touches no other knob.
pub proof fn lemma_with_knob(m: Material, i: int, v: F32)
    ensures
        m.octaves >= 1 || i == 1 ==> m.with_knob_value(i, v).octaves >= 1,
        m.sharpness >= 1 || i == 2 ==> m.with_knob_value(i, v).sharpness >= 1,
        forall|j: int| j != i ==> #[trigger] m.with_knob_value(i, v).knob_value(j) == m.knob_value(j),
{
}

/// Setting a knob to what it reads as leaves it reading the same.
pub proof fn lemma_knob_round_trip(m: Material, i: int)
    requires
        0 <= i < 5,
        !m.frequency.nan() && !m.frequency.neg(),
        m.octaves >= 1,
        m.sharpness >= 1,
    ensures
        m.knob_value(i) matches Some(v) && m.with_knob_value(i, v).knob_value(i) == Some(v),
{
    lemma_count_round_trip(m.octaves);
    lemma_count_round_trip(m.sharpness);
}

/// An integer knob reads as the same number after it is set to what it reads
/// as. The integer itself comes back where 24 digits hold it.
pub proof fn lemma_count_round_trip(n: u32)
    requires
        n >= 1,
    ensures
        count_as_f32(count_from_f32(count_as_f32(n)) as u32) == count_as_f32(n),
        n < 0x100_0000 ==> count_from_f32(count_as_f32(n)) == n,
{
    lemma2_to64();
    let v = count_as_f32(n);
    let len = ieee::bit_length(n as nat);
    let s = ieee::significand(n as nat, 24);
    ieee::lemma_bit_length(n as nat);
    ieee::lemma_bit_length_below(n as nat, 32);
    ieee::lemma_nearest_f32_parts(false, n as nat, 0);
    if len <= 24 {
        let c = (24 - len) as nat;
        lemma_pow2_adds(len, c);
        lemma_pow2_pos(c);
        assert(s < 0x100_0000) by (nonlinear_arith)
            requires
                s == n * pow2(c),
                n < pow2(len),
                pow2(len) * pow2(c) == 0x100_0000,
                pow2(c) > 0,
        ;
        // Twice the number is a whole number of halves.
        if c == 0 {
            assert(s * pow2(1) == 2 * n) by (nonlinear_arith)
                requires
                    s == n * pow2(c),
                    pow2(c) == 1,
                    pow2(1) == 2,
            ;
            assert(ieee::floor_scaled(s, 1) == 2 * n);
        } else {
            lemma_pow2_unfold(c);
            let d = (c - 1) as nat;
            lemma_pow2_pos(d);
            assert(s == (2 * n) * pow2(d)) by (nonlinear_arith)
                requires
                    s == n * pow2(c),
                    pow2(c) == 2 * pow2(d),
            ;
            if d == 0 {
                assert(s * pow2(0) == 2 * n) by (nonlinear_arith)
                    requires
                        s == (2 * n) * pow2(d),
                        pow2(d) == 1,
                        pow2(0) == 1,
                ;
                assert(ieee::floor_scaled(s, 0) == 2 * n);
            } else {
                vstd::arithmetic::div_mod::lemma_fundamental_div_mod_converse(
                    s as int,
                    pow2(d) as int,
                    2 * n,
                    0,
                );
                assert(ieee::floor_scaled(s, -(d as int)) == 2 * n);
            }
        }
        assert(ieee::floor_scaled(v.sig(), v.exp() + 1) == 2 * n);
    } else {
        let k = (len - 24) as nat;
        lemma_pow2_pos(k);
        lemma_pow2_unfold((k + 1) as nat);
        let r = s * pow2(k);
        assert(s * pow2(k + 1) == 2 * r) by (nonlinear_arith)
            requires
                r == s * pow2(k),
                pow2(k + 1) == 2 * pow2(k),
        ;
        if s == 0x100_0000 {
            lemma_pow2_unfold((k + 2) as nat);
            assert(0x80_0000 * pow2(k + 2) == 2 * r) by (nonlinear_arith)
                requires
                    r == 0x100_0000 * pow2(k),
                    pow2(k + 1) == 2 * pow2(k),
                    pow2(k + 2) == 2 * pow2(k + 1),
            ;
        }
        assert(ieee::floor_scaled(v.sig(), v.exp() + 1) == 2 * r);
        lemma_rounded_count(s, k, r);
        assert(n >= 0x100_0000) by {
            if len > 25 {
                lemma_pow2_strictly_increases(24, (len - 1) as nat);
            }
        }
    }
}

/// A count that is already rounded to 24 digits keeps its bit pattern.
proof fn lemma_rounded_count(s: nat, k: nat, r: nat)
    requires
        0x80_0000 <= s <= 0x100_0000,
        1 <= k <= 8,
        r == s * pow2(k),
    ensures
        ({
            let n = if r > u32::MAX {
                u32::MAX as nat
            } else {
                r
            };
            ieee::nearest_f32(false, n, 0) == (k + 150) * 0x80_0000 + (s - 0x80_0000)
        }),
        1 <= r,
{
    lemma2_to64();
    lemma_pow2_pos(k);
    lemma_pow2_adds(23, k);
    lemma_pow2_adds(24, k);
    lemma_pow2_adds(25, k);
    assert(pow2(23 + k) <= r <= pow2(24 + k)) by (nonlinear_arith)
        requires
            0x80_0000 <= s <= 0x100_0000,
            r == s * pow2(k),
            pow2(23 + k) == 0x80_0000 * pow2(k),
            pow2(24 + k) == 0x100_0000 * pow2(k),
            pow2(k) > 0,
    ;
    if r > u32::MAX {
        if k < 8 {
            lemma_pow2_strictly_increases(24 + k, 32);
        }
        assert(s == 0x100_0000) by (nonlinear_arith)
            requires
                s * 256 >= 0x1_0000_0000,
                s <= 0x100_0000,
        ;
        ieee::lemma_bit_length_unique(u32::MAX as nat, 32);
        assert(u32::MAX as nat == 0x100_0000 * 256 - 1);
        vstd::arithmetic::div_mod::lemma_fundamental_div_mod_converse(
            u32::MAX as int,
            256,
            0xff_ffff,
            255,
        );
    } else if s == 0x100_0000 {
        lemma_pow2_unfold((25 + k) as nat);
        ieee::lemma_bit_length_unique(r, (25 + k) as nat);
        lemma_pow2_unfold((k + 1) as nat);
        lemma_pow2_pos((k + 1) as nat);
        assert(r == 0x80_0000 * pow2(k + 1)) by (nonlinear_arith)
            requires
                r == 0x100_0000 * pow2(k),
                pow2(k + 1) == 2 * pow2(k),
        ;
        vstd::arithmetic::div_mod::lemma_fundamental_div_mod_converse(
            r as int,
            pow2(k + 1) as int,
            0x80_0000,
            0,
        );
        ieee::lemma_nearest_even(r, pow2(k + 1));
    } else {
        assert(r < pow2(24 + k)) by (nonlinear_arith)
            requires
                s < 0x100_0000,
                r == s * pow2(k),
                pow2(24 + k) == 0x100_0000 * pow2(k),
                pow2(k) > 0,
        ;
        ieee::lemma_bit_length_unique(r, (24 + k) as nat);
        vstd::arithmetic::div_mod::lemma_fundamental_div_mod_converse(
            r as int,
            pow2(k) as int,
            s as int,
            0,
        );
        ieee::lemma_nearest_even(r, pow2(k));
    }
}

/// A tile coordinate in a large texture plane.
#[derive(Debug, Clone, Copy, PartialEq, Eq, Structural, Hash)]
pub struct TileId {
    /// Tile column.
    pub x: i64,
    /// Tile row.
    pub y: i64,
}

impl TileId {
    /// A tile coordinate.
    pub fn new(x: i64, y: i64) -> (r: Self)
        ensures
            r == (TileId { x, y }),
    {
        TileId { x, y }
    }
}

/// A rendered tile: `size * size` scalars in `[0, 1]`, row-major. In
/// executable code `==` compares the samples as numbers; see [`Tile::same`].
#[derive(Debug, Clone)]
pub struct Tile {
    /// Edge length in pixels.
    pub size: u32,
    /// Row-major samples in `[0, 1]`.
    pub data: Vec<F32>,
}

impl Tile {
    /// The tile holds a sample for each of its pixels.
    pub open spec fn wf(self) -> bool {
        self.data@.len() == self.size * self.size
    }

    /// Equal in size and, sample by sample, as numbers.
    pub open spec fn same(self, other: Tile) -> bool {
        &&& self.size == other.size
        &&& self.data@.len() == other.data@.len()
        &&& forall|i: int|
            0 <= i < self.data@.len() ==> (#[trigger] self.data@[i]).same(other.data@[i])
    }

    /// Sample at `(x, y)`, which lies within the tile.
    pub fn get(&self, x: u32, y: u32) -> (r: F32)
        requires
            x < self.size,
            y < self.size,
            y * self.size + x <= u32::MAX,
            y * self.size + x < self.data@.len(),
        ensures
            r == self.data@[y * self.size + x],
    {
        assert(0 <= y * self.size) by (nonlinear_arith)
            requires
                0 <= y,
                0 <= self.size,
        ;
        self.data[(y * self.size + x) as usize]
    }

    /// Encode as an 8-bit greyscale PNG.
    pub fn to_png(&self) -> (out: Vec<u8>)
        requires
            self.wf(),
        ensures
            out@ == png::png_bytes(
                self.size,
                self.size,
                0,
                1,
                self.data@.map_values(|v: F32| png::quantised(v) as u8),
            ),
            png_reader::fits_a_chunk(self.size, self.size, 1) ==> (png_reader::decode(
                out@,
            ) matches Some((w, h, colour_type, px)) && w == self.size && h == self.size
                && colour_type == 0 && px.len() == self.data@.len() && forall|i: int|
                0 <= i < px.len() ==> #[trigger] px[i] == png::quantised(self.data@[i])),
    {
        let mut px: Vec<u8> = Vec::new();
        let mut i: usize = 0;
        while i < self.data.len()
            invariant
                i <= self.data@.len(),
                px@ == self.data@.subrange(0, i as int).map_values(
                    |v: F32| png::quantised(v) as u8,
                ),
            decreases self.data@.len() - i,
        {
            px.push(png::quantise(self.data[i]));
            i = i + 1;
            assert(px@ =~= self.data@.subrange(0, i as int).map_values(
                |v: F32| png::quantised(v) as u8,
            ));
        }
        assert(self.data@.subrange(0, i as int) =~= self.data@);
        assert forall|k: int| 0 <= k < px@.len() implies #[trigger] px@[k] == png::quantised(
            self.data@[k],
        ) by {
            shades::lemma_byte_is_nearest(self.data@[k]);
        }
        png::grey(self.size, self.size, &px)
    }
}

/// Every pixel of a whole tile can be read: where the samples can be counted
/// in 32 bits, a column and a row below the size give an index in bounds.
pub proof fn lemma_get_in_bounds(t: Tile, x: u32, y: u32)
    requires
        t.wf(),
        t.size * t.size <= u32::MAX,
        x < t.size,
        y < t.size,
    ensures
        0 <= y * t.size + x < t.data@.len(),
        y * t.size + x <= u32::MAX,
{
    assert(0 <= y * t.size + x < t.size * t.size) by (nonlinear_arith)
        requires
            0 <= x < t.size,
            0 <= y < t.size,
    ;
}

impl PartialEq for Tile {
    fn eq(&self, other: &Self) -> (r: bool) {
        if self.size != other.size || self.data.len() != other.data.len() {
            return false;
        }
        let mut i: usize = 0;
        while i < self.data.len()
            invariant
                i <= self.data@.len(),
                self.data@.len() == other.data@.len(),
                forall|j: int|
                    0 <= j < i ==> (#[trigger] self.data@[j]).same(other.data@[j]),
            decreases self.data@.len() - i,
        {
            if self.data[i] != other.data[i] {
                assert(!self.data@[i as int].same(other.data@[i as int]));
                return false;
            }
            i = i + 1;
        }
        true
    }
}

impl vstd::std_specs::cmp::PartialEqSpecImpl for Tile {
    open spec fn obeys_eq_spec() -> bool {
        true
    }

    open spec fn eq_spec(&self, other: &Self) -> bool {
        self.same(*other)
    }
}

/// The largest tile index that does not alias onto a nearer one, as
/// binary64 division gives it: 2^31 over the frequency, rounded to 53
/// digits, truncated and saturated.
pub open spec fn tile_limit(frequency: F32) -> int {
    if frequency.nan() {
        0
    } else if frequency.sig() == 0 {
        if frequency.neg() {
            i64::MIN as int
        } else {
            i64::MAX as int
        }
    } else {
        let (q, e) = ieee::quotient(1, frequency.sig(), 53);
        let m = ieee::floor_scaled(q, e + 31 - frequency.exp()) as int;
        math::saturate_i64(
            if frequency.neg() {
                -m
            } else {
                m
            },
        )
    }
}

impl Material {
    /// Largest tile index that does not alias onto a nearer one.
    ///
    /// The lattice cell is an `i32` and wraps, so the field repeats every
    /// 2^32 cells. A tile covers `frequency` cells, which makes the usable
    /// range 2^32 over twice the frequency in each direction, the halving
    /// because indices run both ways from zero.
    ///
    /// Nothing enforces this. Rendering past it is well defined; it simply
    /// returns a copy of somewhere nearer.
    pub fn max_tile(&self) -> (r: i64)
        ensures
            r == tile_limit(self.frequency),
    {
        match self.frequency.unpack() {
            None => 0,
            Some((neg, sig, exp)) => {
                if sig == 0 {
                    if neg {
                        i64::MIN
                    } else {
                        i64::MAX
                    }
                } else {
                    proof {
                        lemma2_to64();
                        lemma2_to64_rest();
                        ieee::lemma_bit_length_unique(1, 1);
                        ieee::lemma_bit_length_below(sig as nat, 24);
                    }
                    let (q, e) = ieee::divide(1, sig as u128, 53);
                    let m: u128 = ieee::floor_scale(q, e + 31 - exp, 0x8000_0000_0000_0000);
                    if neg {
                        (-(m as i128)) as i64
                    } else if m > 0x7fff_ffff_ffff_ffff {
                        i64::MAX
                    } else {
                        m as i64
                    }
                }
            },
        }
    }
}

} // verus!
