//! Q4.27 fixed-point arithmetic.
//!
//! The value of a number is the integer divided by 2^27, so the format holds
//! `[-16, 16)` in steps of 2^-27. Four integer bits are not arbitrary: the
//! widest intermediate of the synthesis path is `6t - 15` inside the quintic
//! interpolant, which reaches -15.
//!
//! Multiplication truncates towards zero. There is no division on the
//! synthesis path: the only divisor, the normalisation of a fractal sum,
//! depends on the octave count alone, and [`recip`] inverts it once.

use vstd::arithmetic::power2::*;
use vstd::prelude::*;

use crate::ieee;
use crate::ieee::F32;
use crate::math;
use crate::numbers;
use crate::seam;
use crate::smoothness;

verus! {

/// A Q4.27 fixed-point number.
pub type Fx = i32;

/// Fractional bits.
pub const SHIFT: u32 = 27;

/// The value 1.
pub const ONE: Fx = 134_217_728;

/// The Q4.27 number that a binary32 number converts to: its value truncated
/// towards zero, saturated to the format, and 0 for what is not a number.
pub open spec fn converted(v: F32) -> int {
    if v.nan() {
        0
    } else {
        let m = ieee::floor_scaled(v.sig(), v.exp() + 27) as int;
        math::saturate_i32(
            if v.neg() {
                -m
            } else {
                m
            },
        )
    }
}

/// Convert from binary32, truncating towards zero.
///
/// Used at the boundary, for parameters the caller supplies as floats.
/// Anything outside `[-16, 16)` saturates rather than wrapping, since a
/// wrapped contrast would be a very confusing picture.
pub fn from_f32(v: F32) -> (r: Fx)
    ensures
        r == converted(v),
{
    match v.unpack() {
        None => 0,
        Some((neg, sig, exp)) => {
            let m: u128 = ieee::floor_scale(sig as u128, exp + 27, 0x8000_0000);
            if neg {
                (-(m as i64)) as i32
            } else if m > 0x7fff_ffff {
                i32::MAX
            } else {
                m as i32
            }
        },
    }
}

/// Convert to binary32: the nearest number to `v / 2^27`.
///
/// Exact when `v` has 24 or fewer significant digits.
pub fn to_f32(v: Fx) -> (r: F32)
    ensures
        r.bits == ieee::nearest_f32(v < 0, magnitude_of(v as int), -27),
        0 <= v <= ONE ==> r.bits <= 0x3f80_0000,
        !r.nan(),
        smoothness::distance(seam::weight(r) - v * pow2(122)) * pow2(24) <= smoothness::distance(
            v * pow2(122),
        ),
{
    let n: u32 = magnitude(v);
    proof {
        numbers::lemma_fixed_as_f32(v as int);
        lemma2_to64();
        ieee::lemma_bit_length_below(n as nat, 32);
        if n > 0 {
            ieee::lemma_bit_length(n as nat);
        }
        if 0 <= v <= ONE {
            lemma_unit_to_f32(v as int);
        }
    }
    ieee::round_f32(v < 0, n as u128, -27)
}

/// Numbers in `[0, 1]` convert to numbers in `[0, 1]`.
pub proof fn lemma_unit_to_f32(v: int)
    requires
        0 <= v <= ONE,
    ensures
        0 <= ieee::nearest_f32(false, v as nat, -27) <= 0x3f80_0000,
{
    lemma2_to64();
    if v > 0 {
        ieee::lemma_significand(v as nat, 24);
        ieee::lemma_bit_length(v as nat);
        if v == ONE {
            ieee::lemma_bit_length_unique(v as nat, 28);
        } else {
            ieee::lemma_bit_length_below(v as nat, 27);
        }
    }
}

/// A number of at most 24 significant digits survives the way to binary32
/// and back.
pub proof fn lemma_f32_round_trip(v: int)
    requires
        math::fits_i32(v),
        ({
            let n = magnitude_of(v);
            let len = ieee::bit_length(n);
            len <= 24 || n % pow2((len - 24) as nat) == 0
        }),
    ensures
        converted(F32 { bits: ieee::nearest_f32(v < 0, magnitude_of(v), -27) as u32 }) == v,
{
    let n = magnitude_of(v);
    let len = ieee::bit_length(n);
    lemma2_to64();
    ieee::lemma_bit_length_below(n, 32);
    let bits = ieee::nearest_f32(v < 0, n, -27);
    let f = F32 { bits: bits as u32 };
    if n == 0 {
        lemma_pow2_pos(122);
        vstd::arithmetic::div_mod::lemma_basic_div(0, pow2(122) as int);
    } else {
        ieee::lemma_bit_length(n);
        ieee::lemma_nearest_f32_parts(v < 0, n, -27);
        let s = ieee::significand(n, 24);
        if len <= 24 {
            let k = (24 - len) as nat;
            lemma_pow2_pos(k);
            lemma_pow2_adds(k, len);
            assert(s < pow2(24)) by (nonlinear_arith)
                requires
                    s == n * pow2(k),
                    n < pow2(len),
                    pow2(24) == pow2(k) * pow2(len),
                    pow2(k) > 0,
            ;
            vstd::arithmetic::div_mod::lemma_div_multiples_vanish(n as int, pow2(k) as int);
            assert(n * pow2(k) == pow2(k) * n) by (nonlinear_arith);
            assert(f.exp() + 27 == -(k as int));
            assert(ieee::floor_scaled(s, -(k as int)) == n) by {
                if k == 0 {
                    assert(n * 1 == n && s * 1 == s) by (nonlinear_arith);
                }
            }
        } else {
            let k = (len - 24) as nat;
            lemma_pow2_pos(k);
            ieee::lemma_nearest_even(n, pow2(k));
            vstd::arithmetic::div_mod::lemma_fundamental_div_mod(n as int, pow2(k) as int);
            assert(s * pow2(k) == n) by (nonlinear_arith)
                requires
                    s == n / pow2(k),
                    n == pow2(k) * (n / pow2(k)),
            ;
            lemma_pow2_adds(k, 24);
            assert(s < pow2(24)) by (nonlinear_arith)
                requires
                    s * pow2(k) < pow2(k) * pow2(24),
                    pow2(k) > 0,
            ;
        }
    }
}

/// The exact product of two Q4.27 numbers, truncated towards zero.
pub open spec fn product(a: int, b: int) -> int {
    math::trunc_div(a * b, ONE as int)
}

/// What [`mul`] gives: the truncated product, modulo 2^32.
pub open spec fn times(a: int, b: int) -> int {
    math::wrap_i32(product(a, b))
}

/// `|a|`.
pub open spec fn magnitude_of(a: int) -> nat {
    if a < 0 {
        (-a) as nat
    } else {
        a as nat
    }
}

/// The magnitude of `a`.
fn magnitude(a: Fx) -> (r: u32)
    ensures
        r == magnitude_of(a as int),
{
    if a < 0 {
        (-(a as i64)) as u32
    } else {
        a as u32
    }
}

/// Multiply, truncating towards zero.
pub fn mul(a: Fx, b: Fx) -> (r: Fx)
    ensures
        r == times(a as int, b as int),
{
    let neg = (a < 0) != (b < 0);
    let ma: u64 = magnitude(a) as u64;
    let mb: u64 = magnitude(b) as u64;
    proof {
        lemma_magnitudes(a as int, b as int, ma as int, mb as int);
    }
    let p: u64 = ma * mb;
    let q: u64 = p >> SHIFT;
    assert(q == p / 134_217_728) by (bit_vector)
        requires
            q == p >> 27u32,
    ;
    proof {
        math::lemma_u64_as_i32(q);
    }
    let r: i32 = q as i32;
    if neg {
        0i32.wrapping_sub(r)
    } else {
        r
    }
}

proof fn lemma_magnitudes(a: int, b: int, ma: int, mb: int)
    requires
        ma == if a < 0 { -a } else { a },
        mb == if b < 0 { -b } else { b },
        ma <= 0x8000_0000,
        mb <= 0x8000_0000,
    ensures
        0 <= ma * mb <= u64::MAX,
        a * b == if (a < 0) != (b < 0) { -(ma * mb) } else { ma * mb },
{
    assert(0 <= ma * mb <= 0x8000_0000 * 0x8000_0000) by (nonlinear_arith)
        requires
            0 <= ma <= 0x8000_0000,
            0 <= mb <= 0x8000_0000,
    ;
    assert((-a) * b == -(a * b) && a * (-b) == -(a * b) && (-a) * (-b) == a * b)
        by (nonlinear_arith);
}

/// Square root of a non-negative value.
///
/// `sqrt(a / 2^27) * 2^27` is the square root of `a * 2^27`, so this is an
/// integer square root of a value up to 2^58 wide.
pub fn sqrt(a: Fx) -> (r: Fx)
    requires
        a >= 0,
    ensures
        r == math::floor_sqrt((a * ONE) as nat),
        r >= 0,
        r * r <= a * ONE < (r + 1) * (r + 1),
{
    let wide: u64 = a as u64;
    assert(wide << 27u32 == wide * 134_217_728 && wide * 134_217_728 < 0x0400_0000_0000_0000)
        by (bit_vector)
        requires
            wide <= 0x7fff_ffff,
    ;
    let n: u64 = wide << SHIFT;
    let r: u64 = isqrt64(n);
    assert(r < 0x2000_0000) by (nonlinear_arith)
        requires
            r * r <= n,
            n < 0x0400_0000_0000_0000,
    ;
    proof {
        math::lemma_floor_sqrt_unique(n as nat, r as nat);
    }
    r as i32
}

/// Floor of the square root of a 64-bit integer.
///
/// Restoring binary square root: one result bit per iteration, highest
/// first. Every operation is an integer compare, add, subtract or shift.
pub fn isqrt64(n: u64) -> (r: u64)
    ensures
        math::is_floor_sqrt(n as nat, r as nat),
        r * r <= n < (r + 1) * (r + 1),
{
    let mut num: u64 = n;
    let mut res: u64 = 0;
    let mut bit: u64 = 0x4000_0000_0000_0000;
    // `root` is the part of the root found so far, and `unit` is twice the
    // weight of the bit that is decided next.
    let ghost mut k: nat = 32;
    let ghost mut root: nat = 0;
    proof {
        lemma2_to64();
        assert(0x1_0000_0000nat * 0x1_0000_0000nat == 4 * 0x4000_0000_0000_0000nat)
            by (nonlinear_arith);
    }
    while bit > num
        invariant
            num == n,
            k <= 32,
            4 * bit == pow2(k) * pow2(k) || (k == 0 && bit == 0),
            n < pow2(k) * pow2(k),
        decreases k,
    {
        proof {
            lemma_unit_step(k, bit);
            lemma2_to64();
        }
        bit = bit >> 2;
        proof {
            k = (k - 1) as nat;
        }
    }
    proof {
        if k < 32 {
            lemma_pow2_strictly_increases(k, 32);
        }
        lemma2_to64();
    }
    while bit != 0
        invariant
            k <= 32,
            4 * bit == pow2(k) * pow2(k) || (k == 0 && bit == 0),
            res == root * pow2(k),
            num + root * root == n,
            n < (root + pow2(k)) * (root + pow2(k)),
            root + pow2(k) <= 0x1_0000_0000,
        decreases k,
    {
        let ghost half = pow2((k - 1) as nat);
        proof {
            lemma2_to64();
            lemma_unit_step(k, bit);
            assert(pow2(k) == 2 * half) by {
                lemma_pow2_unfold(k);
            }
            assert(bit == half * half) by (nonlinear_arith)
                requires
                    4 * bit == pow2(k) * pow2(k),
                    pow2(k) == 2 * half,
            ;
            assert((root + half) * (root + half) == root * root + root * (2 * half) + half * half)
                by (nonlinear_arith);
            assert((root + half) * (root + half) < 0x1_0000_0000 * 0x1_0000_0000)
                by (nonlinear_arith)
                requires
                    root + 2 * half <= 0x1_0000_0000,
                    half >= 1,
            ;
            assert(root * (2 * half) == 2 * (root * half)) by (nonlinear_arith);
        }
        assert(res >> 1 == res / 2) by (bit_vector);
        if num >= res + bit {
            num = num - (res + bit);
            res = (res >> 1) + bit;
            proof {
                assert((root + half) * half == root * half + half * half) by (nonlinear_arith);
                root = root + half;
            }
        } else {
            res = res >> 1;
        }
        bit = bit >> 2;
        proof {
            k = (k - 1) as nat;
        }
    }
    proof {
        if k != 0 {
            lemma_pow2_pos(k);
            assert(pow2(k) * pow2(k) > 0) by (nonlinear_arith)
                requires
                    pow2(k) > 0,
            ;
        }
        lemma2_to64();
        assert(root * 1 == root) by (nonlinear_arith);
    }
    res
}

/// Quartering the bit under trial halves its weight.
proof fn lemma_unit_step(k: nat, bit: u64)
    requires
        bit != 0,
        k <= 32,
        4 * bit == pow2(k) * pow2(k) || (k == 0 && bit == 0),
    ensures
        k > 0,
        4 * (bit >> 2) == pow2((k - 1) as nat) * pow2((k - 1) as nat) || (k == 1 && (bit >> 2)
            == 0),
        bit == pow2((k - 1) as nat) * pow2((k - 1) as nat),
{
    lemma2_to64();
    assert(bit >> 2 == bit / 4) by (bit_vector);
    assert(1nat * 1nat == 1) by (nonlinear_arith);
    assert(k > 0);
    let half = pow2((k - 1) as nat);
    lemma_pow2_unfold(k);
    assert(4 * bit == (2 * half) * (2 * half));
    assert((2 * half) * (2 * half) == 4 * (half * half)) by (nonlinear_arith);
    if k > 1 {
        let quarter = pow2((k - 2) as nat);
        lemma_pow2_unfold((k - 1) as nat);
        assert(half * half == 4 * (quarter * quarter)) by (nonlinear_arith)
            requires
                half == 2 * quarter,
        ;
    }
}

/// Reciprocal of a positive value, for a caller to compute once.
pub fn recip(v: Fx) -> (r: Fx)
    requires
        v > 0,
    ensures
        r == math::wrap_i32(ONE * ONE / v as int),
{
    let unit: u64 = 0x0040_0000_0000_0000;
    let q: u64 = unit / (v as u64);
    proof {
        math::lemma_u64_as_i32(q);
    }
    q as i32
}

/// The amplitude of octave `o`: `ONE` halved `o` times.
pub open spec fn amplitude(o: nat) -> int {
    ONE as int / pow2(o) as int
}

/// The sum of the first `n` amplitudes.
pub open spec fn amplitude_sum(n: nat) -> int
    decreases n,
{
    if n == 0 {
        0
    } else {
        amplitude_sum((n - 1) as nat) + amplitude((n - 1) as nat)
    }
}

/// How many octaves a request for `octaves` gives: at least one.
pub open spec fn octave_count(octaves: u32) -> nat {
    if octaves == 0 {
        1
    } else {
        octaves as nat
    }
}

/// Halving an amplitude gives the next one.
pub proof fn lemma_amplitude_step(o: nat)
    ensures
        amplitude(o + 1) == amplitude(o) / 2,
        0 <= amplitude(o) <= ONE,
        amplitude(0) == ONE,
{
    lemma_pow2_pos(o);
    lemma_pow2_unfold(o + 1);
    lemma2_to64();
    vstd::arithmetic::div_mod::lemma_div_denominator(ONE as int, pow2(o) as int, 2);
    vstd::arithmetic::div_mod::lemma_div_is_ordered_by_denominator(
        ONE as int,
        1,
        pow2(o) as int,
    );
    assert(pow2(o + 1) == pow2(o) * 2);
}

/// The amplitudes of `n` octaves sum to `2 - 2^(1 - n)`, as far as 27
/// fractional bits hold it.
pub proof fn lemma_amplitude_sum(n: nat)
    ensures
        n <= 28 ==> amplitude_sum(n) == 2 * ONE - pow2((28 - n) as nat),
        n > 28 ==> amplitude_sum(n) == 2 * ONE - 1,
        n >= 28 ==> amplitude(n) == 0,
        n <= 27 ==> amplitude(n) == pow2((27 - n) as nat),
    decreases n,
{
    lemma2_to64();
    if n > 0 {
        lemma_amplitude_sum((n - 1) as nat);
        lemma_amplitude_step((n - 1) as nat);
        if n <= 27 {
            lemma_pow2_unfold((28 - n) as nat);
        }
    } else {
        lemma_amplitude_step(0);
    }
}

/// The normalisation divisor a fractal sum of `octaves` octaves needs.
///
/// Built by repeated halving rather than by a formula, so that it matches
/// the accumulation in the synthesis loop exactly.
pub fn fractal_norm(octaves: u32) -> (r: Fx)
    ensures
        r == amplitude_sum(octave_count(octaves)),
        ONE <= r < 2 * ONE,
{
    let count: u32 = if octaves == 0 {
        1
    } else {
        octaves
    };
    let mut amp: Fx = ONE;
    let mut norm: Fx = 0;
    let mut i: u32 = 0;
    proof {
        lemma_amplitude_step(0);
    }
    while i < count
        invariant
            i <= count,
            amp == amplitude(i as nat),
            norm == amplitude_sum(i as nat),
        decreases count - i,
    {
        proof {
            lemma_amplitude_step(i as nat);
            lemma_amplitude_sum(i as nat);
            lemma_amplitude_sum((i + 1) as nat);
            lemma_amplitude_sum_bounds((i + 1) as nat);
            lemma_amplitude_sum_bounds(i as nat);
        }
        norm = norm + amp;
        assert(amp >> 1 == amp / 2) by (bit_vector)
            requires
                amp >= 0,
        ;
        amp = amp >> 1;
        i = i + 1;
    }
    proof {
        lemma_amplitude_sum_bounds(count as nat);
    }
    norm
}

/// The normalisation divisor is at least one and stays below two.
pub proof fn lemma_amplitude_sum_bounds(n: nat)
    ensures
        n >= 1 ==> ONE <= amplitude_sum(n) < 2 * ONE,
        0 <= amplitude_sum(n) < 2 * ONE,
{
    lemma_amplitude_sum(n);
    lemma2_to64();
    if n <= 28 {
        lemma_pow2_pos((28 - n) as nat);
        if 1 < n {
            lemma_pow2_strictly_increases((28 - n) as nat, 27);
        }
    }
}

/// The order of the operands does not matter.
pub proof fn lemma_product_commutes(a: int, b: int)
    ensures
        product(a, b) == product(b, a),
{
    assert(a * b == b * a) by (nonlinear_arith);
}

/// Negating an operand negates the result exactly, because truncation is
/// towards zero: magnitudes can be multiplied and the sign applied after.
pub proof fn lemma_product_sign_symmetric(a: int, b: int)
    ensures
        product(-a, b) == -product(a, b),
        product(a, -b) == -product(a, b),
        product(-a, -b) == product(a, b),
{
    assert((-a) * b == -(a * b) && a * (-b) == -(a * b) && (-a) * (-b) == a * b)
        by (nonlinear_arith);
}

/// One is the identity of multiplication, and zero absorbs.
pub proof fn lemma_product_identity(b: int)
    ensures
        product(ONE as int, b) == b,
        product(b, ONE as int) == b,
        product(-ONE as int, b) == -b,
        product(0, b) == 0,
        product(b, 0) == 0,
{
    lemma_product_sign_symmetric(ONE as int, b);
    lemma_product_commutes(b, ONE as int);
    assert(0 * b == 0 && b * 0 == 0) by (nonlinear_arith);
}

/// A factor of magnitude at most one does not enlarge the other.
pub proof fn lemma_product_shrinks(a: int, b: int)
    requires
        -ONE <= a <= ONE,
    ensures
        0 <= b ==> -b <= product(a, b) <= b,
        b <= 0 ==> b <= product(a, b) <= -b,
        (0 <= a && 0 <= b) || (a <= 0 && b <= 0) ==> product(a, b) >= 0,
        (0 <= a && b <= 0) || (a <= 0 && 0 <= b) ==> product(a, b) <= 0,
{
    assert(0 <= b ==> -(ONE * b) <= a * b <= ONE * b) by (nonlinear_arith)
        requires
            -ONE <= a <= ONE,
    ;
    assert(b <= 0 ==> ONE * b <= a * b <= -(ONE * b)) by (nonlinear_arith)
        requires
            -ONE <= a <= ONE,
    ;
    assert((0 <= a && 0 <= b) || (a <= 0 && b <= 0) ==> a * b >= 0) by (nonlinear_arith);
    assert((0 <= a && b <= 0) || (a <= 0 && 0 <= b) ==> a * b <= 0) by (nonlinear_arith);
}

/// Multiplication is the real product `a * b / 2^27` with the fraction
/// dropped: it is off by less than one step, and never away from zero.
pub proof fn lemma_product_is_truncated(a: int, b: int)
    ensures
        a * b >= 0 ==> product(a, b) * ONE <= a * b < (product(a, b) + 1) * ONE,
        a * b <= 0 ==> (product(a, b) - 1) * ONE < a * b <= product(a, b) * ONE,
{
}

/// What multiplication gives is the product where the format holds it, and
/// otherwise a multiple of 2^32 away from it.
pub proof fn lemma_times_wraps(a: int, b: int) -> (k: int)
    ensures
        math::fits_i32(times(a, b)),
        product(a, b) == times(a, b) + k * 0x1_0000_0000,
        math::fits_i32(product(a, b)) ==> times(a, b) == product(a, b),
{
    math::lemma_wrap_is_congruent(product(a, b))
}

/// The square root is exact on squares that the format holds exactly.
pub proof fn lemma_sqrt_of_square(x: int)
    requires
        x >= 0,
        (x * x) % (ONE as int) == 0,
    ensures
        math::floor_sqrt((product(x, x) * ONE) as nat) == x,
{
    assert(x * x >= 0) by (nonlinear_arith);
    assert(product(x, x) * ONE == x * x);
    assert(x * x < (x + 1) * (x + 1)) by (nonlinear_arith)
        requires
            x >= 0,
    ;
    math::lemma_floor_sqrt_unique((x * x) as nat, x as nat);
}

/// The reciprocal undoes multiplication up to its truncations: at most one
/// step, and one more for each whole unit of `v`.
pub proof fn lemma_recip_undoes_product(v: int)
    requires
        v > 0,
    ensures
        ONE - v / (ONE as int) - 1 <= product(v, ONE * ONE / v) <= ONE,
{
    let unit = (ONE * ONE) as int;
    let r = unit / v;
    vstd::arithmetic::div_mod::lemma_fundamental_div_mod(unit, v);
    vstd::arithmetic::div_mod::lemma_mod_bound(unit, v);
    assert(v * r <= unit < v * r + v);
    assert(r >= 0) by {
        vstd::arithmetic::div_mod::lemma_div_pos_is_pos(unit, v);
    }
    assert(v * r >= 0) by (nonlinear_arith)
        requires
            v > 0,
            r >= 0,
    ;
}

} // verus!
