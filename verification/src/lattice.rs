//! Lattice coordinates: an integer cell and a Q4.27 offset within it.
//!
//! The magnitude of a coordinate lives in the cell, so a distant point is
//! as exact as one near the origin. The cell is an `i32` and wraps, so the
//! plane repeats every 2^32 cells.

use vstd::arithmetic::div_mod::*;
use vstd::arithmetic::power2::*;
use vstd::prelude::*;

use crate::fixed::{Fx, ONE, SHIFT};
use crate::ieee;
use crate::ieee::F64;
use crate::math;

verus! {

/// A coordinate split into an integer cell and a Q4.27 offset.
///
/// `frac` is always in `[0, ONE)`; see [`Lat::wf`].
#[derive(Debug, Clone, Copy, PartialEq, Eq, Structural)]
pub struct Lat {
    /// Integer cell index, wrapping at 2^32.
    pub cell: i32,
    /// Offset within the cell, in `[0, ONE)`.
    pub frac: Fx,
}

/// The distance, in steps of 2^-27, after which the lattice repeats:
/// 2^32 cells.
pub open spec fn period() -> int {
    0x0800_0000_0000_0000
}

/// The floor of `n * 2^e`, negated if `neg`.
pub open spec fn whole_part(neg: bool, n: nat, e: int) -> int {
    if e >= 0 {
        let m = (n * pow2(e as nat)) as int;
        if neg {
            -m
        } else {
            m
        }
    } else {
        let unit = pow2((-e) as nat);
        if !neg {
            (n / unit) as int
        } else if n % unit == 0 {
            -(n / unit)
        } else {
            -(n / unit) - 1
        }
    }
}

/// What `n * 2^e`, negated if `neg`, has above its floor, in units of 2^e.
pub open spec fn part_above(neg: bool, n: nat, e: int) -> nat {
    let unit = pow2((-e) as nat);
    if e >= 0 {
        0
    } else if neg && n % unit != 0 {
        (unit - n % unit) as nat
    } else {
        n % unit
    }
}

/// `n * 2^e` rounded to 53 digits, and then down to a step of 2^-27.
pub open spec fn offset_steps(n: nat, e: int) -> nat {
    if n == 0 {
        0
    } else {
        ieee::floor_scaled(ieee::significand(n, 53), ieee::bit_length(n) + e - 53 + 27)
    }
}

/// The coordinate of a binary64 number: its floor as the cell, and what is
/// above it, as binary64 subtraction gives that, as the offset. A number so
/// little below an integer that the subtraction rounds up to one belongs to
/// that integer. What is not a number gives the origin.
pub open spec fn split_of(v: F64) -> Lat {
    if v.nan() {
        Lat { cell: 0, frac: 0 }
    } else {
        Lat::at(
            math::saturate_i64(whole_part(v.neg(), v.sig(), v.exp())) * ONE + offset_steps(
                part_above(v.neg(), v.sig(), v.exp()),
                v.exp(),
            ),
        )
    }
}

impl Lat {
    /// Split a real coordinate.
    ///
    /// Runs once per tile rather than once per pixel.
    pub fn split(v: F64) -> (r: Self)
        ensures
            r == split_of(v),
            r.wf(),
    {
        match v.unpack() {
            None => Lat { cell: 0, frac: 0 },
            Some((neg, sig, exp)) => {
                if exp >= 0 {
                    Lat::split_integer(neg, sig, exp)
                } else if exp < -120 {
                    proof {
                        lemma_split_tiny(neg, sig as nat, exp as int);
                    }
                    Lat { cell: 0, frac: 0 }
                } else {
                    Lat::split_fraction(neg, sig, (-exp) as u32)
                }
            },
        }
    }

    /// Split `sig * 2^exp`, negated if `neg`, which is an integer.
    fn split_integer(neg: bool, sig: u64, exp: i32) -> (r: Self)
        requires
            0x10_0000_0000_0000 <= sig < 0x20_0000_0000_0000,
            0 <= exp <= 972,
        ensures
            r == Lat::at(math::saturate_i64(whole_part(neg, sig as nat, exp as int)) * ONE),
    {
        let m: u128 = ieee::floor_scale(sig as u128, exp, 0x8000_0000_0000_0000);
        let whole: i64 = if neg {
            (-(m as i128)) as i64
        } else if m > 0x7fff_ffff_ffff_ffff {
            i64::MAX
        } else {
            m as i64
        };
        Lat::from_parts(whole, 0)
    }

    /// Split `sig / 2^d`, negated if `neg`.
    fn split_fraction(neg: bool, sig: u64, d: u32) -> (r: Self)
        requires
            sig < 0x20_0000_0000_0000,
            1 <= d <= 120,
        ensures
            r == Lat::at(
                math::saturate_i64(whole_part(neg, sig as nat, -(d as int))) * ONE + offset_steps(
                    part_above(neg, sig as nat, -(d as int)),
                    -(d as int),
                ),
            ),
    {
        let unit: u128 = ieee::power(d);
        proof {
            lemma_pow2_pos(d as nat);
            lemma_div_pos_is_pos(sig as int, unit as int);
            lemma_div_is_ordered_by_denominator(sig as int, 1, unit as int);
            lemma_mod_bound(sig as int, unit as int);
        }
        let q: i64 = (sig as u128 / unit) as i64;
        let r: u128 = sig as u128 % unit;
        let whole: i64 = if !neg {
            q
        } else if r == 0 {
            -q
        } else {
            -q - 1
        };
        let above: u128 = if neg && r != 0 {
            unit - r
        } else {
            r
        };
        Lat::from_parts(whole, steps(above, d))
    }

    /// A whole number of cells and an offset that may have rounded up to one.
    fn from_parts(whole: i64, offset: Fx) -> (r: Self)
        requires
            0 <= offset <= ONE,
        ensures
            r == Lat::at(whole * ONE + offset),
    {
        proof {
            math::lemma_i64_as_i32(whole);
            let k = lemma_wrap_quotient(whole as int);
            lemma_at_periodic(math::wrap_i32(whole as int) * ONE + offset, k);
        }
        let l: Lat = Lat { cell: #[verifier::truncate] (whole as i32), frac: offset };
        l.renormalise()
    }

    /// The offset lies within the cell.
    pub open spec fn wf(self) -> bool {
        0 <= self.frac < ONE
    }

    /// The coordinate as one number, in steps of 2^-27.
    pub open spec fn position(self) -> int {
        self.cell * ONE + self.frac
    }

    /// The coordinate of a position.
    pub open spec fn at(position: int) -> Lat {
        Lat {
            cell: math::wrap_i32(position / ONE as int) as i32,
            frac: (position % ONE as int) as Fx,
        }
    }

    /// Re-normalise after `frac` has left `[0, ONE)`.
    ///
    /// An arithmetic shift floors, which is what a lattice needs, and
    /// taking the carry off `frac` then lands back in range for any input.
    pub fn renormalise(self) -> (r: Self)
        ensures
            r == Lat::at(self.position()),
            r.wf(),
    {
        let frac: i32 = self.frac;
        let carry: i32 = frac >> SHIFT;
        assert(carry == frac / 134_217_728 && -16 <= carry <= 15) by (bit_vector)
            requires
                carry == frac >> 27u32,
        ;
        Lat { cell: self.cell.wrapping_add(carry), frac: frac - carry * ONE }
    }

    /// Advance by `delta` cells.
    pub fn offset(self, delta: Fx) -> (r: Self)
        requires
            math::fits_i32(self.frac + delta),
        ensures
            r == Lat::at(self.position() + delta),
            r.wf(),
    {
        Lat { cell: self.cell, frac: self.frac + delta }.renormalise()
    }

    /// Advance by `n` steps of `step`, where the total may be large.
    ///
    /// Used to walk across a tile. The product needs more than 32 bits
    /// once the tile is wide and the frequency is high, so it is taken at
    /// full width and split.
    pub fn step(self, n: u32, step: Fx) -> (r: Self)
        requires
            math::fits_i32(self.frac + (n * step) % (ONE as int)),
        ensures
            r == Lat::at(self.position() + n * step),
            r.wf(),
    {
        assert(-0x4000_0000_0000_0000 * 2 <= n * step <= 0x4000_0000_0000_0000 * 2 - 1)
            by (nonlinear_arith)
            requires
                0 <= n <= 0xffff_ffff,
                -0x8000_0000 <= step <= 0x7fff_ffff,
        ;
        let p: i64 = n as i64 * step as i64;
        let whole: i64 = p >> SHIFT;
        let part: i64 = p & 0x7ff_ffff;
        assert(whole == p / 134_217_728 && part == p % 134_217_728 && 0 <= part < 134_217_728)
            by (bit_vector)
            requires
                whole == p >> 27u32,
                part == p & 0x7ff_ffff,
        ;
        proof {
            math::lemma_i64_as_i32(whole);
        }
        let r: Lat = Lat {
            cell: self.cell.wrapping_add(#[verifier::truncate] (whole as i32)),
            frac: self.frac + part as i32,
        }.renormalise();
        proof {
            let p1 = self.position() + n * step;
            let cell = self.cell.wrapping_add(whole as i32);
            let k = lemma_wrap_quotient(self.cell + whole);
            let p2 = cell * ONE + self.frac + part;
            assert(p1 == p2 + k * period());
            lemma_at_periodic(p2, k);
        }
        r
    }

    /// Double the coordinate, as one fractal octave does.
    #[verifier::rlimit(40)]
    pub fn double(self) -> (r: Self)
        ensures
            r == Lat::at(2 * self.cell * ONE + math::wrap_i32(2 * self.frac)),
            self.wf() ==> r == Lat::at(2 * self.position()),
            r.wf(),
    {
        let d: i32 = self.frac.wrapping_mul(2);
        let cell: i32 = self.cell.wrapping_mul(2);
        let carry: i32 = d >> SHIFT;
        assert(carry == d / 134_217_728 && -16 <= carry <= 15) by (bit_vector)
            requires
                carry == d >> 27u32,
        ;
        let r: Lat = Lat { cell: cell.wrapping_add(carry), frac: d - carry * ONE };
        proof {
            let k = lemma_wrap_quotient(2 * self.cell + carry);
            lemma_at_unique(2 * self.cell * ONE + d, r, k);
        }
        r
    }
}

/// `n / 2^d`, below one, rounded to 53 digits and then down to a step of
/// 2^-27.
fn steps(n: u128, d: u32) -> (r: Fx)
    requires
        1 <= d <= 120,
        n < pow2(d as nat),
    ensures
        r == offset_steps(n as nat, -(d as int)),
        0 <= r <= ONE,
{
    if n == 0 {
        return 0;
    }
    proof {
        lemma2_to64();
        lemma2_to64_rest();
        ieee::lemma_bit_length_below(n as nat, d as nat);
        ieee::lemma_bit_length(n as nat);
    }
    let s: u128 = ieee::round_significand(n, 53);
    // The last digit of the significand lies below 2^-26 steps.
    let below: u32 = d + 26 - ieee::digits(n);
    if below > 63 {
        proof {
            lemma_pow2_strictly_increases(63, below as nat);
            lemma_basic_div(s as int, pow2(below as nat) as int);
        }
        0
    } else {
        let unit: u128 = ieee::power(below);
        proof {
            lemma_pow2_pos(below as nat);
            if below > 26 {
                lemma_pow2_strictly_increases(26, below as nat);
            }
            lemma_div_is_ordered_by_denominator(s as int, 0x400_0000, unit as int);
            lemma_div_pos_is_pos(s as int, unit as int);
            assert(s / unit <= s / 0x400_0000);
        }
        (s / unit) as i32
    }
}

/// A number closer than 2^-67 to zero is the origin: above zero it is less
/// than a step away, and below zero the subtraction rounds up to one.
pub proof fn lemma_split_tiny(neg: bool, sig: nat, exp: int)
    requires
        sig < 0x20_0000_0000_0000,
        exp < -120,
    ensures
        Lat::at(
            math::saturate_i64(whole_part(neg, sig, exp)) * ONE + offset_steps(
                part_above(neg, sig, exp),
                exp,
            ),
        ) == (Lat { cell: 0, frac: 0 }),
{
    lemma2_to64();
    lemma2_to64_rest();
    let d = (-exp) as nat;
    let unit = pow2(d);
    lemma_pow2_strictly_increases(53, d);
    lemma_basic_div(sig as int, unit as int);
    lemma_small_mod(sig, unit);
    if sig == 0 {
    } else if !neg {
        ieee::lemma_bit_length_below(sig, 53);
        ieee::lemma_significand(sig, 53);
        let below = (d + 26 - ieee::bit_length(sig)) as nat;
        lemma_pow2_strictly_increases(63, below);
        lemma_basic_div(ieee::significand(sig, 53) as int, pow2(below) as int);
    } else {
        let n = (unit - sig) as nat;
        lemma_pow2_unfold(d);
        if d > 54 {
            lemma_pow2_strictly_increases(53, (d - 1) as nat);
        }
        ieee::lemma_bit_length_unique(n, d);
        let k = (d - 53) as nat;
        lemma_pow2_adds(k, 53);
        lemma_pow2_strictly_increases(53, (k - 1) as nat);
        lemma_pow2_unfold(k);
        // n = (2^53 - 1) * 2^k + (2^k - sig), and sig is below 2^(k-1).
        let rem = (pow2(k) - sig) as int;
        assert(n == pow2(k) * 0x1f_ffff_ffff_ffff + rem) by (nonlinear_arith)
            requires
                n == pow2(k) * 0x20_0000_0000_0000 - sig,
                rem == pow2(k) - sig,
        ;
        lemma_fundamental_div_mod_converse(n as int, pow2(k) as int, 0x1f_ffff_ffff_ffff, rem);
        assert(ieee::significand(n, 53) == 0x20_0000_0000_0000);
        assert(n > 0);
        assert(pow2(26) == 0x400_0000);
        assert(0x20_0000_0000_0000nat / 0x400_0000nat == 0x800_0000nat);
        assert((-(-26int)) as nat == 26nat);
        assert(ieee::floor_scaled(0x20_0000_0000_0000, -26) == ONE);
        assert(offset_steps(n, exp) == ONE);
    }
}

/// Wrapping to 32 bits takes off a whole number of 2^32.
proof fn lemma_wrap_quotient(n: int) -> (k: int)
    ensures
        n == math::wrap_i32(n) + k * 0x1_0000_0000,
        math::fits_i32(math::wrap_i32(n)),
{
    (n + 0x8000_0000) / 0x1_0000_0000
}

/// Positions that differ by a whole number of periods are one coordinate.
pub proof fn lemma_at_periodic(position: int, k: int)
    ensures
        Lat::at(position + k * period()) == Lat::at(position),
{
    let q = position / 134_217_728;
    assert((position + k * 0x0800_0000_0000_0000) / 134_217_728 == q + k * 0x1_0000_0000);
}

/// A coordinate in normal form is the coordinate of any position that it
/// stands for.
pub proof fn lemma_at_unique(position: int, l: Lat, k: int)
    requires
        l.wf(),
        position == l.position() + k * period(),
    ensures
        Lat::at(position) == l,
{
    lemma_at_periodic(l.position(), k);
}

/// The coordinate of a position stands for it, up to whole periods.
pub proof fn lemma_at_stands_for(position: int) -> (k: int)
    ensures
        Lat::at(position).wf(),
        position == Lat::at(position).position() + k * period(),
{
    let k = lemma_wrap_quotient(position / 134_217_728);
    k
}

/// A coordinate in normal form is the coordinate of its own position.
pub proof fn lemma_at_own_position(l: Lat)
    requires
        l.wf(),
    ensures
        Lat::at(l.position()) == l,
{
    lemma_at_unique(l.position(), l, 0);
}

/// Advancing in two moves is advancing by their sum: where a point lands
/// does not depend on the points visited on the way.
pub proof fn lemma_advance_composes(position: int, d: int, e: int)
    ensures
        Lat::at(Lat::at(position + d).position() + e) == Lat::at(position + d + e),
{
    let k = lemma_at_stands_for(position + d);
    lemma_at_periodic(Lat::at(position + d).position() + e, k);
}

/// `m` steps and then `n` more are `m + n` steps.
pub proof fn lemma_step_composes(l: Lat, m: int, n: int, step: int)
    ensures
        Lat::at(Lat::at(l.position() + m * step).position() + n * step) == Lat::at(
            l.position() + (m + n) * step,
        ),
{
    lemma_advance_composes(l.position(), m * step, n * step);
    assert(m * step + n * step == (m + n) * step) by (nonlinear_arith);
}

/// Doubling commutes with the normal form: the octave of a coordinate is
/// the coordinate of the octave.
pub proof fn lemma_double_composes(position: int)
    ensures
        Lat::at(2 * Lat::at(position).position()) == Lat::at(2 * position),
{
    let k = lemma_at_stands_for(position);
    lemma_at_periodic(2 * Lat::at(position).position(), 2 * k);
}

/// Doubling after `n` steps is `n` steps of twice the size after doubling.
pub proof fn lemma_double_of_step(l: Lat, n: int, step: int)
    ensures
        Lat::at(2 * Lat::at(l.position() + n * step).position()) == Lat::at(
            Lat::at(2 * l.position()).position() + n * (2 * step),
        ),
{
    lemma_double_composes(l.position() + n * step);
    assert(n * (2 * step) == 2 * (n * step)) by (nonlinear_arith);
    lemma_advance_composes(0, 2 * l.position(), n * (2 * step));
}

/// Tiles meet without a seam: where one tile's origin is `size` steps from
/// another's, every column of the first continues the second.
pub proof fn lemma_tiles_meet(a: Lat, b: Lat, size: int, n: int, step: int)
    requires
        b == Lat::at(a.position() + size * step),
    ensures
        Lat::at(b.position() + n * step) == Lat::at(a.position() + (size + n) * step),
{
    lemma_step_composes(a, size, n, step);
}

} // verus!
