//! The boundary with IEEE 754 binary floating point.
//!
//! A floating-point number is held as its bit pattern, and every operation
//! on it is an operation on integers: what a number is worth, and what the
//! nearest number to a given value is, are stated exactly. Rounding is
//! always to the nearest number, and to the even one of two that are
//! equally near, as the standard's default mode has it.

use vstd::arithmetic::div_mod::*;
use vstd::arithmetic::mul::*;
use vstd::arithmetic::power2::*;
use vstd::prelude::*;

verus! {

/// A binary32 number, as its bit pattern.
///
/// In executable code `==` compares the numbers, not the patterns: both
/// zeros are equal, and what is not a number equals nothing. See
/// [`F32::same`].
#[derive(Debug, Clone, Copy)]
pub struct F32 {
    /// Sign, eight bits of exponent, 23 bits of fraction.
    pub bits: u32,
}

/// A binary64 number, as its bit pattern.
///
/// In executable code `==` compares the numbers, not the patterns: both
/// zeros are equal, and what is not a number equals nothing. See
/// [`F64::same`].
#[derive(Debug, Clone, Copy)]
pub struct F64 {
    /// Sign, eleven bits of exponent, 52 bits of fraction.
    pub bits: u64,
}

impl F32 {
    /// The sign bit is set.
    pub open spec fn neg(self) -> bool {
        self.bits >= 0x8000_0000
    }

    /// The biased exponent.
    pub open spec fn biased(self) -> int {
        self.bits as int / 0x80_0000 % 256
    }

    /// The fraction field.
    pub open spec fn fraction(self) -> int {
        self.bits as int % 0x80_0000
    }

    /// Not a number.
    pub open spec fn nan(self) -> bool {
        self.biased() == 255 && self.fraction() != 0
    }

    /// The significand. Together with [`F32::exp`] it gives the magnitude,
    /// `sig * 2^exp`; an infinity counts as 2^128.
    pub open spec fn sig(self) -> nat {
        if self.biased() == 0 {
            self.fraction() as nat
        } else {
            (self.fraction() + 0x80_0000) as nat
        }
    }

    /// The exponent of the significand's last bit.
    pub open spec fn exp(self) -> int {
        if self.biased() == 0 {
            -149
        } else {
            self.biased() - 150
        }
    }

    /// Equal as numbers: both zeros are equal, and what is not a number
    /// equals nothing, itself included.
    pub open spec fn same(self, other: F32) -> bool {
        &&& !self.nan()
        &&& !other.nan()
        &&& self.bits == other.bits || (self.sig() == 0 && other.sig() == 0)
    }

    /// Take a number apart: whether it is negative, its significand and its
    /// exponent. `None` for what is not a number.
    pub fn unpack(self) -> (r: Option<(bool, u32, i32)>)
        ensures
            r is None <==> self.nan(),
            r matches Some((neg, sig, exp)) ==> neg == self.neg() && sig == self.sig() && exp
                == self.exp() && sig < 0x100_0000 && -149 <= exp <= 105 && (exp > -149 ==> sig
                >= 0x80_0000),
    {
        let biased: u32 = self.bits / 0x80_0000 % 256;
        let fraction: u32 = self.bits % 0x80_0000;
        let neg: bool = self.bits >= 0x8000_0000;
        if biased == 255 && fraction != 0 {
            None
        } else if biased == 0 {
            Some((neg, fraction, -149))
        } else {
            Some((neg, fraction + 0x80_0000, biased as i32 - 150))
        }
    }
}

impl F64 {
    /// The sign bit is set.
    pub open spec fn neg(self) -> bool {
        self.bits >= 0x8000_0000_0000_0000
    }

    /// The biased exponent.
    pub open spec fn biased(self) -> int {
        self.bits as int / 0x10_0000_0000_0000 % 2048
    }

    /// The fraction field.
    pub open spec fn fraction(self) -> int {
        self.bits as int % 0x10_0000_0000_0000
    }

    /// Not a number.
    pub open spec fn nan(self) -> bool {
        self.biased() == 2047 && self.fraction() != 0
    }

    /// The significand. Together with [`F64::exp`] it gives the magnitude,
    /// `sig * 2^exp`; an infinity counts as 2^1024.
    pub open spec fn sig(self) -> nat {
        if self.biased() == 0 {
            self.fraction() as nat
        } else {
            (self.fraction() + 0x10_0000_0000_0000) as nat
        }
    }

    /// The exponent of the significand's last bit.
    pub open spec fn exp(self) -> int {
        if self.biased() == 0 {
            -1074
        } else {
            self.biased() - 1075
        }
    }

    /// Equal as numbers: both zeros are equal, and what is not a number
    /// equals nothing, itself included.
    pub open spec fn same(self, other: F64) -> bool {
        &&& !self.nan()
        &&& !other.nan()
        &&& self.bits == other.bits || (self.sig() == 0 && other.sig() == 0)
    }

    /// Take a number apart: whether it is negative, its significand and its
    /// exponent. `None` for what is not a number.
    pub fn unpack(self) -> (r: Option<(bool, u64, i32)>)
        ensures
            r is None <==> self.nan(),
            r matches Some((neg, sig, exp)) ==> neg == self.neg() && sig == self.sig() && exp
                == self.exp() && sig < 0x20_0000_0000_0000 && -1074 <= exp <= 972 && (exp > -1074
                ==> sig >= 0x10_0000_0000_0000),
    {
        let biased: u64 = self.bits / 0x10_0000_0000_0000 % 2048;
        let fraction: u64 = self.bits % 0x10_0000_0000_0000;
        let neg: bool = self.bits >= 0x8000_0000_0000_0000;
        if biased == 2047 && fraction != 0 {
            None
        } else if biased == 0 {
            Some((neg, fraction, -1074))
        } else {
            Some((neg, fraction + 0x10_0000_0000_0000, biased as i32 - 1075))
        }
    }
}

impl PartialEq for F32 {
    fn eq(&self, other: &Self) -> (r: bool) {
        match (self.unpack(), other.unpack()) {
            (Some((_, a, _)), Some((_, b, _))) => self.bits == other.bits || (a == 0 && b == 0),
            _ => false,
        }
    }
}

impl vstd::std_specs::cmp::PartialEqSpecImpl for F32 {
    open spec fn obeys_eq_spec() -> bool {
        true
    }

    open spec fn eq_spec(&self, other: &Self) -> bool {
        self.same(*other)
    }
}

impl PartialEq for F64 {
    fn eq(&self, other: &Self) -> (r: bool) {
        match (self.unpack(), other.unpack()) {
            (Some((_, a, _)), Some((_, b, _))) => self.bits == other.bits || (a == 0 && b == 0),
            _ => false,
        }
    }
}

impl vstd::std_specs::cmp::PartialEqSpecImpl for F64 {
    open spec fn obeys_eq_spec() -> bool {
        true
    }

    open spec fn eq_spec(&self, other: &Self) -> bool {
        self.same(*other)
    }
}

/// The floor of `n * 2^e`.
pub open spec fn floor_scaled(n: nat, e: int) -> nat {
    if e >= 0 {
        n * pow2(e as nat)
    } else {
        n / pow2((-e) as nat)
    }
}

/// How many binary digits `n` has.
pub open spec fn bit_length(n: nat) -> nat
    decreases n,
{
    if n == 0 {
        0
    } else {
        1 + bit_length(n / 2)
    }
}

/// The integer nearest to `num / den`, the even one of two that are equally
/// near.
pub open spec fn nearest_even(num: nat, den: nat) -> nat {
    let q = num / den;
    let r = num % den;
    if 2 * r > den || (2 * r == den && q % 2 == 1) {
        q + 1
    } else {
        q
    }
}

/// The significand of `p` digits that is nearest to `n`, which is read as a
/// number whose first digit is a one: it lies between 2^(p-1) and 2^p.
pub open spec fn significand(n: nat, p: nat) -> nat {
    let len = bit_length(n);
    if len <= p {
        n * pow2((p - len) as nat)
    } else {
        nearest_even(n, pow2((len - p) as nat))
    }
}

/// The bit pattern of the binary32 number nearest to `n * 2^e`, negated if
/// `neg`, for a value in the normal range. A significand that rounds up to
/// 2^24 carries into the exponent.
pub open spec fn nearest_f32(neg: bool, n: nat, e: int) -> int {
    let sign = if neg {
        0x8000_0000int
    } else {
        0int
    };
    if n == 0 {
        sign
    } else {
        sign + (bit_length(n) + e + 126) * 0x80_0000 + (significand(n, 24) - 0x80_0000)
    }
}

/// The bit pattern of the binary64 number nearest to `n * 2^e`, negated if
/// `neg`, for a value in the normal range.
pub open spec fn nearest_f64(neg: bool, n: nat, e: int) -> int {
    let sign = if neg {
        0x8000_0000_0000_0000int
    } else {
        0int
    };
    if n == 0 {
        sign
    } else {
        sign + (bit_length(n) + e + 1022) * 0x10_0000_0000_0000 + (significand(n, 53)
            - 0x10_0000_0000_0000)
    }
}

/// A number with `k` digits lies between two powers of two.
pub proof fn lemma_bit_length(n: nat)
    ensures
        n < pow2(bit_length(n)),
        n > 0 ==> bit_length(n) >= 1 && pow2((bit_length(n) - 1) as nat) <= n,
    decreases n,
{
    lemma2_to64();
    if n > 0 {
        lemma_bit_length(n / 2);
        lemma_pow2_unfold(bit_length(n));
        if n >= 2 {
            lemma_pow2_unfold((bit_length(n) - 1) as nat);
        }
    }
}

/// Two powers of two fix how many digits the numbers between them have.
pub proof fn lemma_bit_length_unique(n: nat, k: nat)
    requires
        k >= 1,
        pow2((k - 1) as nat) <= n < pow2(k),
    ensures
        bit_length(n) == k,
{
    lemma_bit_length(n);
    lemma_pow2_pos((k - 1) as nat);
    let len = bit_length(n);
    if len < k {
        if len < k - 1 {
            lemma_pow2_strictly_increases(len, (k - 1) as nat);
        }
    } else if len > k {
        if k < len - 1 {
            lemma_pow2_strictly_increases(k, (len - 1) as nat);
        }
    }
}

/// A number below 2^k has at most `k` digits.
pub proof fn lemma_bit_length_below(n: nat, k: nat)
    ensures
        n < pow2(k) ==> bit_length(n) <= k,
{
    lemma_bit_length(n);
    if bit_length(n) > k + 1 {
        lemma_pow2_strictly_increases(k, (bit_length(n) - 1) as nat);
    }
}

/// Rounding moves a value by at most half a unit, and by half a unit only to
/// an even number.
pub proof fn lemma_nearest_even(num: nat, den: nat)
    requires
        den > 0,
    ensures
        2 * (nearest_even(num, den) * den) == 2 * num - den || 2 * (nearest_even(num, den) * den)
            == 2 * num + den ==> nearest_even(num, den) % 2 == 0,
        2 * num - den <= 2 * (nearest_even(num, den) * den) <= 2 * num + den,
        num / den <= nearest_even(num, den) <= num / den + 1,
        num % den == 0 ==> nearest_even(num, den) == num / den,
{
    let q = num / den;
    lemma_fundamental_div_mod(num as int, den as int);
    lemma_mod_bound(num as int, den as int);
    assert(den * q == q * den) by (nonlinear_arith);
    assert((q + 1) * den == q * den + den) by (nonlinear_arith);
}

/// A significand of `p` digits lies between 2^(p-1) and 2^p.
pub proof fn lemma_significand(n: nat, p: nat)
    requires
        n > 0,
        p >= 1,
    ensures
        pow2((p - 1) as nat) <= significand(n, p) <= pow2(p),
{
    let len = bit_length(n);
    lemma_bit_length(n);
    if len <= p {
        let k = (p - len) as nat;
        lemma_pow2_adds(k, (len - 1) as nat);
        lemma_pow2_adds(k, len);
        lemma_mul_inequality(pow2((len - 1) as nat) as int, n as int, pow2(k) as int);
        lemma_mul_inequality(n as int, pow2(len) as int, pow2(k) as int);
        lemma_mul_is_commutative(pow2(k) as int, pow2((len - 1) as nat) as int);
        lemma_mul_is_commutative(pow2(k) as int, pow2(len) as int);
    } else {
        let k = (len - p) as nat;
        lemma_pow2_pos(k);
        lemma_pow2_adds(k, (p - 1) as nat);
        lemma_pow2_adds(k, p);
        lemma_nearest_even(n, pow2(k));
        lemma_div_is_ordered(pow2((len - 1) as nat) as int, n as int, pow2(k) as int);
        lemma_div_multiples_vanish(pow2((p - 1) as nat) as int, pow2(k) as int);
        lemma_mul_is_commutative(pow2(k) as int, pow2(p) as int);
        assert(pow2(len) as int == pow2(p) * pow2(k));
        lemma_div_by_multiple_is_strongly_ordered(
            n as int,
            pow2(len) as int,
            pow2(p) as int,
            pow2(k) as int,
        );
        lemma_div_multiples_vanish(pow2(p) as int, pow2(k) as int);
    }
}

/// 2^k.
pub fn power(k: u32) -> (r: u128)
    requires
        k < 128,
    ensures
        r == pow2(k as nat),
{
    let mut r: u128 = 1;
    let mut i: u32 = 0;
    proof {
        lemma2_to64();
    }
    while i < k
        invariant
            i <= k < 128,
            r == pow2(i as nat),
        decreases k - i,
    {
        proof {
            lemma_pow2_unfold((i + 1) as nat);
            lemma_pow2_fits_u128((i + 1) as nat);
        }
        r = r * 2;
        i = i + 1;
    }
    r
}

/// Powers of two up to 2^127 fit in 128 bits.
pub proof fn lemma_pow2_fits_u128(k: nat)
    requires
        k < 128,
    ensures
        pow2(k) <= u128::MAX,
{
    lemma2_to64_rest();
    lemma_pow2_adds(64, 63);
    assert(pow2(127) == 0x1_0000_0000_0000_0000int * 0x8000_0000_0000_0000int);
    assert(0x1_0000_0000_0000_0000int * 0x8000_0000_0000_0000int <= u128::MAX)
        by (nonlinear_arith);
    if k < 127 {
        lemma_pow2_strictly_increases(k, 127);
    }
}

/// How many binary digits a number has.
pub fn digits(n: u128) -> (r: u32)
    ensures
        r == bit_length(n as nat),
        r <= 128,
{
    let mut rest: u128 = n;
    let mut r: u32 = 0;
    proof {
        lemma_bit_length_below(n as nat, 128);
        lemma2_to64_rest();
        lemma_pow2_adds(64, 64);
        assert(0x1_0000_0000_0000_0000int * 0x1_0000_0000_0000_0000int == u128::MAX + 1)
            by (nonlinear_arith);
    }
    while rest > 0
        invariant
            r + bit_length(rest as nat) == bit_length(n as nat),
            bit_length(n as nat) <= 128,
        decreases rest,
    {
        rest = rest / 2;
        r = r + 1;
    }
    r
}

/// Divide, rounding to the nearest integer and to the even one of two.
pub fn divide_nearest(num: u128, den: u128) -> (r: u128)
    requires
        0 < den,
        num / den < u128::MAX,
    ensures
        r == nearest_even(num as nat, den as nat),
{
    let q: u128 = num / den;
    let r: u128 = num % den;
    // `2 * r` against `den`, without leaving 128 bits.
    if r > den - r || (r == den - r && q % 2 == 1) {
        q + 1
    } else {
        q
    }
}

/// Round to a significand of `p` digits.
pub fn round_significand(n: u128, p: u32) -> (r: u128)
    requires
        n > 0,
        1 <= p <= 64,
    ensures
        r == significand(n as nat, p as nat),
        pow2((p - 1) as nat) <= r <= pow2(p as nat),
{
    let len: u32 = digits(n);
    proof {
        lemma_significand(n as nat, p as nat);
        lemma_pow2_fits_u128(p as nat);
        lemma_bit_length(n as nat);
    }
    if len <= p {
        n * power(p - len)
    } else {
        let den: u128 = power(len - p);
        proof {
            lemma_pow2_pos((len - p) as nat);
            lemma_nearest_even(n as nat, den as nat);
        }
        assert(n / den < u128::MAX) by {
            lemma_pow2_unfold((len - p) as nat);
            lemma_pow2_pos((len - p - 1) as nat);
            lemma_div_is_ordered_by_denominator(n as int, 2, den as int);
        }
        divide_nearest(n, den)
    }
}

/// The binary32 number nearest to `n * 2^e`, negated if `neg`.
pub fn round_f32(neg: bool, n: u128, e: i32) -> (r: F32)
    requires
        n > 0 ==> 1 <= bit_length(n as nat) + e + 126 <= 253,
    ensures
        r.bits == nearest_f32(neg, n as nat, e as int),
{
    let sign: u32 = if neg {
        0x8000_0000
    } else {
        0
    };
    if n == 0 {
        return F32 { bits: sign };
    }
    proof {
        lemma2_to64();
    }
    let biased: u32 = (digits(n) as i64 + e as i64 + 126) as u32;
    let sig: u32 = round_significand(n, 24) as u32;
    F32 { bits: sign + biased * 0x80_0000 + (sig - 0x80_0000) }
}

/// The binary64 number nearest to `n * 2^e`, negated if `neg`.
pub fn round_f64(neg: bool, n: u128, e: i32) -> (r: F64)
    requires
        n > 0 ==> 1 <= bit_length(n as nat) + e + 1022 <= 2045,
    ensures
        r.bits == nearest_f64(neg, n as nat, e as int),
{
    let sign: u64 = if neg {
        0x8000_0000_0000_0000
    } else {
        0
    };
    if n == 0 {
        return F64 { bits: sign };
    }
    proof {
        lemma2_to64_rest();
    }
    let biased: u64 = (digits(n) as i64 + e as i64 + 1022) as u64;
    let sig: u64 = round_significand(n, 53) as u64;
    F64 { bits: sign + biased * 0x10_0000_0000_0000 + (sig - 0x10_0000_0000_0000) }
}

/// Packing and taking apart again gives the rounded significand and its
/// exponent back, with a significand of 2^24 brought into range.
pub proof fn lemma_nearest_f32_parts(neg: bool, n: nat, e: int)
    requires
        n > 0,
        1 <= bit_length(n) + e + 126 <= 253,
    ensures
        ({
            let bits = nearest_f32(neg, n, e);
            let v = F32 { bits: bits as u32 };
            let s = significand(n, 24);
            &&& 0 <= bits <= u32::MAX
            &&& v.neg() == neg
            &&& !v.nan()
            &&& v.biased() != 0
            &&& 0x80_0000 <= s <= 0x100_0000
            &&& s < 0x100_0000 ==> v.sig() == s && v.exp() == bit_length(n) + e - 24
            &&& s == 0x100_0000 ==> v.sig() == 0x80_0000 && v.exp() == bit_length(n) + e - 23
        }),
{
    lemma2_to64();
    lemma_significand(n, 24);
}

/// Packing and taking apart again, for binary64.
pub proof fn lemma_nearest_f64_parts(neg: bool, n: nat, e: int)
    requires
        n > 0,
        1 <= bit_length(n) + e + 1022 <= 2045,
    ensures
        ({
            let bits = nearest_f64(neg, n, e);
            let v = F64 { bits: bits as u64 };
            let s = significand(n, 53);
            &&& 0 <= bits <= u64::MAX
            &&& v.neg() == neg
            &&& !v.nan()
            &&& v.biased() != 0
            &&& 0x10_0000_0000_0000 <= s <= 0x20_0000_0000_0000
            &&& s < 0x20_0000_0000_0000 ==> v.sig() == s && v.exp() == bit_length(n) + e - 53
            &&& s == 0x20_0000_0000_0000 ==> v.sig() == 0x10_0000_0000_0000 && v.exp()
                == bit_length(n) + e - 52
        }),
{
    lemma2_to64();
    lemma2_to64_rest();
    lemma_significand(n, 53);
}

/// The floor of `n * 2^e`, but at most `limit`.
pub fn floor_scale(n: u128, e: i32, limit: u128) -> (r: u128)
    requires
        n <= u64::MAX,
        limit <= u64::MAX,
        -0x1_0000 <= e <= 0x1_0000,
    ensures
        floor_scaled(n as nat, e as int) <= limit ==> r == floor_scaled(n as nat, e as int),
        floor_scaled(n as nat, e as int) > limit ==> r == limit,
{
    proof {
        lemma2_to64_rest();
    }
    let m: u128 = if n == 0 {
        proof {
            if e >= 0 {
                assert(0 * pow2(e as nat) == 0) by (nonlinear_arith);
            } else {
                lemma_pow2_pos((-e) as nat);
                lemma_basic_div(0, pow2((-e) as nat) as int);
            }
        }
        0
    } else if e >= 64 {
        proof {
            if e > 64 {
                lemma_pow2_strictly_increases(64, e as nat);
            }
            assert(n * pow2(e as nat) >= pow2(e as nat)) by (nonlinear_arith)
                requires
                    n >= 1,
            ;
        }
        limit
    } else if e >= 0 {
        let unit: u128 = power(e as u32);
        proof {
            lemma_pow2_strictly_increases(e as nat, 64);
            assert(n * unit <= 0xffff_ffff_ffff_ffff * 0x1_0000_0000_0000_0000)
                by (nonlinear_arith)
                requires
                    n <= 0xffff_ffff_ffff_ffff,
                    unit <= 0x1_0000_0000_0000_0000,
            ;
            assert(0xffff_ffff_ffff_ffffint * 0x1_0000_0000_0000_0000int <= u128::MAX)
                by (nonlinear_arith);
        }
        n * unit
    } else if e > -64 {
        proof {
            lemma_pow2_pos((-e) as nat);
        }
        n / power((-e) as u32)
    } else {
        proof {
            if e < -64 {
                lemma_pow2_strictly_increases(64, (-e) as nat);
            }
            lemma_basic_div(n as int, pow2((-e) as nat) as int);
        }
        0
    };
    if m > limit {
        limit
    } else {
        m
    }
}

/// The binary64 product of an integer and a binary32 number, each rounding
/// on the way included: the integer's conversion and the product's own. An
/// infinity times zero, and what is not a number, is not a number; an
/// infinity times anything else is an infinity.
pub open spec fn scaled(x: i64, f: F32) -> F64 {
    let a = F64 { bits: nearest_f64(x < 0, magnitude(x as int), 0) as u64 };
    if f.nan() || (f.biased() == 255 && x == 0) {
        F64 { bits: 0x7ff8_0000_0000_0000 }
    } else if f.biased() == 255 {
        F64 {
            bits: if (x < 0) != f.neg() {
                0xfff0_0000_0000_0000
            } else {
                0x7ff0_0000_0000_0000
            },
        }
    } else {
        F64 { bits: nearest_f64(a.neg() != f.neg(), a.sig() * f.sig(), a.exp() + f.exp()) as u64 }
    }
}

/// `|x|`.
pub open spec fn magnitude(x: int) -> nat {
    if x < 0 {
        (-x) as nat
    } else {
        x as nat
    }
}

/// Multiply an integer, converted to binary64, by a binary32 number.
pub fn scale(x: i64, f: F32) -> (r: F64)
    ensures
        r == scaled(x, f),
{
    let n: u128 = if x < 0 {
        (-(x as i128)) as u128
    } else {
        x as u128
    };
    proof {
        lemma2_to64_rest();
        lemma2_to64();
        lemma_bit_length_below(n as nat, 64);
        if n > 0 {
            lemma_bit_length(n as nat);
            lemma_nearest_f64_parts(x < 0, n as nat, 0);
        }
    }
    let a: F64 = round_f64(x < 0, n, 0);
    match (a.unpack(), f.unpack()) {
        (Some((na, sa, ea)), Some((nf, sf, ef))) => {
            if ef == 105 {
                // An infinity.
                if x == 0 {
                    F64 { bits: 0x7ff8_0000_0000_0000 }
                } else if na != nf {
                    F64 { bits: 0xfff0_0000_0000_0000 }
                } else {
                    F64 { bits: 0x7ff0_0000_0000_0000 }
                }
            } else {
                proof {
                    assert(0 <= sa * sf < 0x20_0000_0000_0000 * 0x100_0000) by (nonlinear_arith)
                        requires
                            sa < 0x20_0000_0000_0000,
                            sf < 0x100_0000,
                    ;
                    assert(0x20_0000_0000_0000int * 0x100_0000int == pow2(53) * pow2(24))
                        by (nonlinear_arith)
                        requires
                            pow2(53) == 0x20_0000_0000_0000,
                            pow2(24) == 0x100_0000,
                    ;
                    lemma_pow2_adds(53, 24);
                    lemma_bit_length_below((sa * sf) as nat, 77);
                    if sa * sf > 0 {
                        lemma_bit_length((sa * sf) as nat);
                        assert(sa > 0) by (nonlinear_arith)
                            requires
                                sa * sf > 0,
                                sa >= 0,
                        ;
                        if x == 0 {
                            assert(false);
                        }
                    }
                }
                round_f64(na != nf, sa as u128 * sf as u128, ea + ef)
            }
        },
        _ => F64 { bits: 0x7ff8_0000_0000_0000 },
    }
}

/// The quotient `a / b`, rounded to `p` digits: a significand and the
/// exponent of its last digit.
pub open spec fn quotient(a: nat, b: nat, p: nat) -> (nat, int) {
    // Enough digits of the quotient to see where its first one is.
    let t = p + bit_length(b);
    let k = (bit_length(a * pow2(t) / b) - p) as nat;
    (nearest_even(a * pow2(t), b * pow2(k)), k - t)
}

/// Divide, rounding to `p` digits.
pub fn divide(a: u128, b: u128, p: u32) -> (r: (u128, i32))
    requires
        a > 0,
        b > 0,
        1 <= p <= 64,
        bit_length(a as nat) + p + bit_length(b as nat) <= 126,
    ensures
        (r.0 as nat, r.1 as int) == quotient(a as nat, b as nat, p as nat),
        r.0 <= pow2(p as nat),
        -126 <= r.1 <= 126,
{
    let lb: u32 = digits(b);
    let t: u32 = p + lb;
    let ghost la = bit_length(a as nat);
    let ghost pt = pow2(t as nat);
    proof {
        lemma_bit_length(a as nat);
        lemma_bit_length(b as nat);
        lemma_pow2_pos(t as nat);
        lemma_pow2_adds(la, t as nat);
        assert(a * pt < pow2(la + t as nat)) by (nonlinear_arith)
            requires
                a < pow2(la),
                pt > 0,
                pow2(la + t as nat) == pow2(la) * pt,
        ;
        if la + t < 126 {
            lemma_pow2_strictly_increases(la + t as nat, 126);
        }
        lemma_pow2_fits_u128(126);
    }
    let num: u128 = a * power(t);
    let n: u128 = num / b;
    proof {
        lemma_quotient_digits(a as nat, b as nat, p as nat, n as nat, num as nat);
    }
    let ln: u32 = digits(n);
    let k: u32 = ln - p;
    let unit: u128 = power(k);
    let den: u128 = b * unit;
    let q: u128 = divide_nearest(num, den);
    (q, k as i32 - t as i32)
}

/// The quotient has more than `p` digits, the divisor scaled to its last
/// kept digit fits, and what is kept is below 2^p.
pub proof fn lemma_quotient_digits(a: nat, b: nat, p: nat, n: nat, num: nat)
    requires
        a > 0,
        b > 0,
        p >= 1,
        num == a * pow2((p + bit_length(b)) as nat),
        num < pow2(126),
        n == num / b,
    ensures
        p < bit_length(n) <= 126,
        ({
            let unit = pow2((bit_length(n) - p) as nat);
            &&& 0 < b * unit <= num
            &&& num / (b * unit) < pow2(p)
            &&& nearest_even(num, b * unit) <= pow2(p)
            &&& num / (b * unit) < u128::MAX
        }),
{
    let lb = bit_length(b);
    lemma_bit_length(b);
    lemma_pow2_adds(p, lb);
    lemma_pow2_pos(p);
    lemma_pow2_pos(lb);
    lemma_fundamental_div_mod(num as int, b as int);
    lemma_mod_bound(num as int, b as int);
    // n >= 2^p
    assert(num >= pow2(p) * b) by (nonlinear_arith)
        requires
            num == a * (pow2(p) * pow2(lb)),
            a >= 1,
            b <= pow2(lb),
            pow2(p) > 0,
    ;
    assert(n >= pow2(p)) by {
        lemma_mul_is_commutative(pow2(p) as int, b as int);
        lemma_div_is_ordered((b * pow2(p)) as int, num as int, b as int);
        lemma_div_multiples_vanish(pow2(p) as int, b as int);
    }
    assert(n <= num) by {
        lemma_div_is_ordered_by_denominator(num as int, 1, b as int);
    }
    lemma_bit_length(n);
    lemma_bit_length_below(n, 126);
    let ln = bit_length(n);
    if ln <= p {
        if ln < p {
            lemma_pow2_strictly_increases(ln, p);
        }
    }
    let k = (ln - p) as nat;
    let unit = pow2(k);
    lemma_pow2_pos(k);
    lemma_pow2_adds(k, p);
    lemma_pow2_adds(k, (p - 1) as nat);
    lemma_pow2_pos((p - 1) as nat);
    assert(unit <= pow2((ln - 1) as nat)) by (nonlinear_arith)
        requires
            pow2((ln - 1) as nat) == unit * pow2((p - 1) as nat),
            pow2((p - 1) as nat) >= 1,
    ;
    assert(0 < b * unit <= b * n) by (nonlinear_arith)
        requires
            0 < b,
            0 < unit <= n,
    ;
    // num < b * (n + 1) <= b * 2^ln
    assert(num < pow2(p) * (b * unit)) by (nonlinear_arith)
        requires
            num < b * n + b,
            n + 1 <= pow2(ln),
            pow2(ln) == unit * pow2(p),
            b > 0,
    ;
    lemma_div_by_multiple_is_strongly_ordered(
        num as int,
        (pow2(p) * (b * unit)) as int,
        pow2(p) as int,
        (b * unit) as int,
    );
    lemma_div_by_multiple(pow2(p) as int, (b * unit) as int);
    lemma_nearest_even(num, b * unit);
    lemma_pow2_fits_u128(126);
    lemma_div_is_ordered_by_denominator(num as int, 1, (b * unit) as int);
}

} // verus!
