//! Bit patterns as numbers: when two of them are equal, which of two comes
//! first, and how far a conversion moves a number.

use vstd::arithmetic::div_mod::*;
use vstd::arithmetic::power2::*;
use vstd::prelude::*;

use crate::analysis;
use crate::analysis::Sensitivity;
use crate::exact::Lat;
use crate::fixed;
use crate::ieee;
use crate::ieee::{F32, F64};
use crate::lattice;
use crate::seam;
use crate::seam::{weight, weight64};
use crate::smoothness::distance;

verus! {

/// A number with the larger exponent is larger, and of two with the same
/// exponent the one with the larger significand.
proof fn lemma_larger(a: nat, x: nat, b: nat, y: nat, unit: nat)
    requires
        unit > 0,
        a < 2 * unit,
        b < 2 * unit,
        x == 0 || a >= unit,
        y == 0 || b >= unit,
        x < y || (x == y && a < b),
    ensures
        a * pow2(x) < b * pow2(y),
{
    lemma_pow2_pos(x);
    if x == y {
        assert(a * pow2(x) < b * pow2(x)) by (nonlinear_arith)
            requires
                a < b,
                pow2(x) > 0,
        ;
    } else {
        let d = (y - x - 1) as nat;
        lemma_pow2_adds(d, x + 1);
        lemma_pow2_unfold(x + 1);
        lemma_pow2_pos(d);
        assert(a * pow2(x) < unit * (2 * pow2(x))) by (nonlinear_arith)
            requires
                a < 2 * unit,
                pow2(x) > 0,
        ;
        assert(unit * (2 * pow2(x)) <= b * pow2(y)) by (nonlinear_arith)
            requires
                b >= unit,
                pow2(y) == pow2(d) * (2 * pow2(x)),
                pow2(d) > 0,
                pow2(x) > 0,
        ;
    }
}

/// A binary32 pattern without its sign is its exponent and its fraction.
proof fn lemma_fields(a: F32)
    ensures
        a.bits as int % 0x8000_0000 == a.biased() * 0x80_0000 + a.fraction(),
        0 <= a.biased() < 256,
        0 <= a.fraction() < 0x80_0000,
{
    let q = a.bits as int / 0x80_0000;
    assert(a.bits == 0x80_0000 * q + a.fraction());
    assert(q == 256 * (q / 256) + a.biased());
    lemma_fundamental_div_mod_converse(
        a.bits as int,
        0x8000_0000,
        q / 256,
        a.biased() * 0x80_0000 + a.fraction(),
    );
}

/// The same of a binary64 pattern.
proof fn lemma_fields64(a: F64)
    ensures
        a.bits as int % 0x8000_0000_0000_0000 == a.biased() * 0x10_0000_0000_0000 + a.fraction(),
        0 <= a.biased() < 2048,
        0 <= a.fraction() < 0x10_0000_0000_0000,
{
    let q = a.bits as int / 0x10_0000_0000_0000;
    assert(a.bits == 0x10_0000_0000_0000 * q + a.fraction());
    assert(q == 2048 * (q / 2048) + a.biased());
    lemma_fundamental_div_mod_converse(
        a.bits as int,
        0x8000_0000_0000_0000,
        q / 2048,
        a.biased() * 0x10_0000_0000_0000 + a.fraction(),
    );
}

/// The magnitudes of two numbers are ordered as their exponents and then
/// their fractions are.
proof fn lemma_fields_order(e: int, f: int, g: int, h: int, unit: nat)
    requires
        unit > 0,
        0 <= e,
        0 <= g,
        0 <= f < unit,
        0 <= h < unit,
        e < g || (e == g && f < h),
    ensures
        ({
            let (a, x) = if e == 0 {
                (f as nat, 0nat)
            } else {
                ((f + unit) as nat, (e - 1) as nat)
            };
            let (b, y) = if g == 0 {
                (h as nat, 0nat)
            } else {
                ((h + unit) as nat, (g - 1) as nat)
            };
            a * pow2(x) < b * pow2(y)
        }),
{
    let (a, x) = if e == 0 {
        (f as nat, 0nat)
    } else {
        ((f + unit) as nat, (e - 1) as nat)
    };
    let (b, y) = if g == 0 {
        (h as nat, 0nat)
    } else {
        ((h + unit) as nat, (g - 1) as nat)
    };
    lemma_larger(a, x, b, y, unit);
}

/// The magnitudes of two binary32 numbers are ordered as their patterns are.
pub proof fn lemma_magnitudes(a: F32, b: F32)
    requires
        a.bits as int % 0x8000_0000 < b.bits as int % 0x8000_0000,
    ensures
        a.sig() * pow2((a.exp() + 149) as nat) < b.sig() * pow2((b.exp() + 149) as nat),
{
    lemma_fields(a);
    lemma_fields(b);
    lemma_fields_order(a.biased(), a.fraction(), b.biased(), b.fraction(), 0x80_0000);
}

/// The magnitudes of two binary64 numbers are ordered as their patterns are.
proof fn lemma_magnitudes64(a: F64, b: F64)
    requires
        a.bits as int % 0x8000_0000_0000_0000 < b.bits as int % 0x8000_0000_0000_0000,
    ensures
        a.sig() * pow2((a.exp() + 1074) as nat) < b.sig() * pow2((b.exp() + 1074) as nat),
{
    lemma_fields64(a);
    lemma_fields64(b);
    lemma_fields_order(a.biased(), a.fraction(), b.biased(), b.fraction(), 0x10_0000_0000_0000);
}

/// A binary32 pattern without its sign, and the magnitude it stands for.
#[verifier::opaque]
spec fn unsigned(a: F32) -> (int, int) {
    (a.bits as int % 0x8000_0000, (a.sig() * pow2((a.exp() + 149) as nat)) as int)
}

/// Only zero has no magnitude, and the sign comes last.
proof fn lemma_unsigned(a: F32)
    ensures
        unsigned(a).0 == if a.neg() {
            a.bits - 0x8000_0000
        } else {
            a.bits as int
        },
        unsigned(a).0 == 0 <==> a.sig() == 0,
        unsigned(a).0 == 0 <==> unsigned(a).1 == 0,
        unsigned(a).1 >= 0,
        weight(a) == if a.neg() {
            -unsigned(a).1
        } else {
            unsigned(a).1
        },
{
    reveal(unsigned);
    let x = a.sig() * pow2((a.exp() + 149) as nat);
    lemma_fields(a);
    lemma_pow2_pos((a.exp() + 149) as nat);
    assert(x == 0 <==> a.sig() == 0) by (nonlinear_arith)
        requires
            x == a.sig() * pow2((a.exp() + 149) as nat),
            pow2((a.exp() + 149) as nat) > 0,
    ;
}

/// The larger pattern has the larger magnitude.
proof fn lemma_larger_pattern(a: F32, b: F32)
    ensures
        unsigned(a).0 < unsigned(b).0 ==> unsigned(a).1 < unsigned(b).1,
        unsigned(a).0 == unsigned(b).0 ==> unsigned(a).1 == unsigned(b).1,
{
    reveal(unsigned);
    if unsigned(a).0 < unsigned(b).0 {
        lemma_magnitudes(a, b);
    }
    if unsigned(a).0 == unsigned(b).0 {
        lemma_fields(a);
        lemma_fields(b);
        assert(a.biased() == b.biased() && a.fraction() == b.fraction());
    }
}

/// Two binary32 patterns are the same if they stand for the same number; what
/// is not a number is the same as nothing.
pub proof fn lemma_same_is_equal(a: F32, b: F32)
    ensures
        a.same(b) <==> !a.nan() && !b.nan() && weight(a) == weight(b),
{
    let ((p, x), (q, y)) = (unsigned(a), unsigned(b));
    lemma_unsigned(a);
    lemma_unsigned(b);
    lemma_larger_pattern(a, b);
    lemma_larger_pattern(b, a);
    lemma_signed_order(a.bits as int, p, x, b.bits as int, q, y, 0x8000_0000);
}

/// A binary64 pattern without its sign, and the magnitude it stands for.
#[verifier::opaque]
spec fn unsigned64(a: F64) -> (int, int) {
    (a.bits as int % 0x8000_0000_0000_0000, (a.sig() * pow2((a.exp() + 1074) as nat)) as int)
}

/// Only zero has no magnitude, and the sign comes last.
proof fn lemma_unsigned64(a: F64)
    ensures
        unsigned64(a).0 == if a.neg() {
            a.bits - 0x8000_0000_0000_0000
        } else {
            a.bits as int
        },
        unsigned64(a).0 == 0 <==> a.sig() == 0,
        unsigned64(a).0 == 0 <==> unsigned64(a).1 == 0,
        unsigned64(a).1 >= 0,
        weight64(a) == if a.neg() {
            -unsigned64(a).1
        } else {
            unsigned64(a).1
        },
{
    reveal(unsigned64);
    let x = a.sig() * pow2((a.exp() + 1074) as nat);
    lemma_fields64(a);
    lemma_pow2_pos((a.exp() + 1074) as nat);
    assert(x == 0 <==> a.sig() == 0) by (nonlinear_arith)
        requires
            x == a.sig() * pow2((a.exp() + 1074) as nat),
            pow2((a.exp() + 1074) as nat) > 0,
    ;
}

/// The larger pattern has the larger magnitude.
proof fn lemma_larger64(a: F64, b: F64)
    ensures
        unsigned64(a).0 < unsigned64(b).0 ==> unsigned64(a).1 < unsigned64(b).1,
        unsigned64(a).0 == unsigned64(b).0 ==> unsigned64(a).1 == unsigned64(b).1,
{
    reveal(unsigned64);
    if unsigned64(a).0 < unsigned64(b).0 {
        lemma_magnitudes64(a, b);
    }
    if unsigned64(a).0 == unsigned64(b).0 {
        lemma_fields64(a);
        lemma_fields64(b);
        assert(a.biased() == b.biased() && a.fraction() == b.fraction());
    }
}

/// Two binary64 patterns are the same if they stand for the same number, and
/// of two numbers the larger has the larger key.
pub proof fn lemma_order_of_numbers(a: F64, b: F64)
    ensures
        a.same(b) <==> !a.nan() && !b.nan() && weight64(a) == weight64(b),
        analysis::order_key(a) < analysis::order_key(b) <==> weight64(a) < weight64(b),
        analysis::order_key(a) == analysis::order_key(b) <==> weight64(a) == weight64(b),
{
    let ((p, x), (q, y)) = (unsigned64(a), unsigned64(b));
    lemma_unsigned64(a);
    lemma_unsigned64(b);
    lemma_larger64(a, b);
    lemma_larger64(b, a);
    lemma_signed_order(a.bits as int, p, x, b.bits as int, q, y, 0x8000_0000_0000_0000);
}

/// Numbers with a sign are ordered as their magnitudes are, or the other way.
proof fn lemma_signed_order(a: int, p: int, x: int, b: int, q: int, y: int, sign: int)
    requires
        0 < sign,
        0 <= a < 2 * sign,
        0 <= b < 2 * sign,
        p == if a >= sign {
            a - sign
        } else {
            a
        },
        q == if b >= sign {
            b - sign
        } else {
            b
        },
        x >= 0,
        y >= 0,
        p == 0 <==> x == 0,
        q == 0 <==> y == 0,
        p < q ==> x < y,
        q < p ==> y < x,
        p == q ==> x == y,
    ensures
        ({
            let (ka, kb) = (
                if a >= sign {
                    sign - a
                } else {
                    a
                },
                if b >= sign {
                    sign - b
                } else {
                    b
                },
            );
            let (wa, wb) = (
                if a >= sign {
                    -x
                } else {
                    x
                },
                if b >= sign {
                    -y
                } else {
                    y
                },
            );
            &&& ka < kb <==> wa < wb
            &&& ka == kb <==> wa == wb
            &&& wa == wb <==> (a == b || (p == 0 && q == 0))
        }),
{
}

/// The nearest binary32 number to `n * 2^e` is within its 2^24th part, and is
/// the number itself where 24 digits hold it.
pub proof fn lemma_nearest_f32_close(neg: bool, n: nat, e: int)
    requires
        n > 0,
        -149 <= e,
        1 <= ieee::bit_length(n) + e + 126 <= 253,
    ensures
        ({
            let v = F32 { bits: ieee::nearest_f32(neg, n, e) as u32 };
            let exact = (n * pow2((e + 149) as nat)) as int;
            let w = if neg {
                -weight(v)
            } else {
                weight(v)
            };
            &&& !v.nan()
            &&& v.neg() == neg
            &&& w >= 0
            &&& distance(w - exact) * pow2(24) <= exact
            &&& n < 0x100_0000 ==> w == exact
        }),
{
    let v = F32 { bits: ieee::nearest_f32(neg, n, e) as u32 };
    let len = ieee::bit_length(n);
    let s = ieee::significand(n, 24);
    lemma2_to64();
    ieee::lemma_nearest_f32_parts(neg, n, e);
    ieee::lemma_bit_length(n);
    if n < 0x100_0000 {
        ieee::lemma_bit_length_below(n, 24);
    }
    let x = (e + 149) as nat;
    let y = (len + e - 24 + 149) as nat;
    let exact = (n * pow2(x)) as int;
    let w = v.sig() * pow2((v.exp() + 149) as nat);
    assert(w == s * pow2(y)) by {
        if s == 0x100_0000 {
            lemma_pow2_unfold(y + 1);
            assert(0x80_0000 * pow2(y + 1) == s * pow2(y)) by (nonlinear_arith)
                requires
                    pow2(y + 1) == 2 * pow2(y),
                    s == 0x100_0000,
            ;
        }
    }
    assert(exact >= 0);
    assert(0 * pow2(24) == 0) by (nonlinear_arith);
    if len <= 24 {
        let c = (24 - len) as nat;
        lemma_pow2_adds(c, y);
        assert(s * pow2(y) == exact) by (nonlinear_arith)
            requires
                s == n * pow2(c),
                pow2(x) == pow2(c) * pow2(y),
                exact == n * pow2(x),
        ;
    } else {
        let c = (len - 24) as nat;
        seam::lemma_significand_close(n, 24);
        lemma_pow2_adds(c, x);
        lemma_pow2_pos(x);
        let d = s * pow2(c) - n;
        assert(s * pow2(y) - exact == d * pow2(x)) by (nonlinear_arith)
            requires
                pow2(y) == pow2(c) * pow2(x),
                exact == n * pow2(x),
                d == s * pow2(c) - n,
        ;
        seam::lemma_distance_times(d, pow2(x) as int);
        assert((distance(d) * pow2(x)) * pow2(24) <= exact) by (nonlinear_arith)
            requires
                distance(d) * pow2(24) <= n,
                exact == n * pow2(x),
                pow2(x) > 0,
        ;
    }
}

/// A number of at most 23 digits over 2^d converts without rounding.
pub proof fn lemma_short_as_f32(neg: bool, n: nat, d: nat)
    requires
        n < 0x80_0000,
        20 <= d <= 27,
    ensures
        ({
            let f = F32 { bits: ieee::nearest_f32(neg, n, -d) as u32 };
            &&& !f.nan()
            &&& weight(f) == if neg {
                -(n * pow2((149 - d) as nat))
            } else {
                (n * pow2((149 - d) as nat)) as int
            }
        }),
{
    let f = F32 { bits: ieee::nearest_f32(neg, n, -d) as u32 };
    lemma2_to64();
    if n == 0 {
        assert(f.bits == 0 || f.bits == 0x8000_0000);
        assert(f.sig() == 0);
        assert(0 * pow2((f.exp() + 149) as nat) == 0 && 0 * pow2((149 - d) as nat) == 0)
            by (nonlinear_arith);
    } else {
        ieee::lemma_bit_length_below(n, 23);
        ieee::lemma_bit_length(n);
        lemma_nearest_f32_close(neg, n, -d);
    }
}

/// The top 23 bits of a hash, from zero to one and from minus one to one: as
/// far along as the whole hash is, to the bits that are dropped.
pub proof fn lemma_hash_along(h: u32)
    ensures
        0 <= h * pow2(117) - (h as int / 512) * pow2(126) < pow2(126),
        0 <= (h - 0x8000_0000) * pow2(118) - (h as int / 512 - 0x40_0000) * pow2(127) < pow2(127),
{
    lemma2_to64();
    let (a, b) = (pow2(117) as int, pow2(118) as int);
    lemma_pow2_pos(117);
    lemma_pow2_pos(118);
    lemma_pow2_adds(9, 117);
    lemma_pow2_adds(9, 118);
    let (q, r) = (h as int / 512, h as int % 512);
    assert(h == 512 * q + r);
    assert(h * a - q * (512 * a) == r * a && (h - 0x8000_0000) * b - (q - 0x40_0000) * (512 * b)
        == r * b) by (nonlinear_arith)
        requires
            h == 512 * q + r,
    ;
    assert(0 <= r * a < 512 * a && 0 <= r * b < 512 * b) by (nonlinear_arith)
        requires
            0 <= r < 512,
            a > 0,
            b > 0,
    ;
}

/// A Q4.27 number converts to the binary32 number nearest to it: within its
/// 2^24th part, and exactly where 24 digits hold it.
pub proof fn lemma_fixed_as_f32(v: int)
    requires
        i32::MIN <= v <= i32::MAX,
    ensures
        ({
            let f = F32 { bits: ieee::nearest_f32(v < 0, fixed::magnitude_of(v), -27) as u32 };
            let exact = v * pow2(122);
            &&& !f.nan()
            &&& distance(weight(f) - exact) * pow2(24) <= distance(exact)
            &&& distance(v) < 0x100_0000 ==> weight(f) == exact
        }),
{
    let n = fixed::magnitude_of(v);
    let f = F32 { bits: ieee::nearest_f32(v < 0, n, -27) as u32 };
    lemma2_to64();
    lemma_pow2_pos(122);
    assert((-v) * pow2(122) == -(v * pow2(122))) by (nonlinear_arith);
    assert(v >= 0 ==> v * pow2(122) >= 0) by (nonlinear_arith)
        requires
            pow2(122) > 0,
    ;
    assert(v <= 0 ==> v * pow2(122) <= 0) by (nonlinear_arith)
        requires
            pow2(122) > 0,
    ;
    if v == 0 {
        assert(f.bits == 0 && f.sig() == 0);
        assert(0 * pow2((f.exp() + 149) as nat) == 0 && 0 * pow2(122) == 0 && 0 * pow2(24) == 0)
            by (nonlinear_arith);
    } else {
        ieee::lemma_bit_length_below(n, 32);
        ieee::lemma_bit_length(n);
        lemma_nearest_f32_close(v < 0, n, -27);
    }
}

/// A binary64 pattern with a magnitude below another's is closer to zero.
proof fn lemma_closer_to_zero(a: F64, b: F64)
    requires
        a.bits as int % 0x8000_0000_0000_0000 <= b.bits as int % 0x8000_0000_0000_0000,
    ensures
        distance(weight64(a)) <= distance(weight64(b)),
{
    lemma_unsigned64(a);
    lemma_unsigned64(b);
    lemma_larger64(a, b);
    reveal(unsigned64);
}

/// The two neighbours that 10^-9 lies between.
proof fn lemma_around_threshold()
    ensures
        distance(weight64(F64 { bits: 0x3e11_2e0b_e826_d694 })) * 1_000_000_000 < pow2(1074),
        distance(weight64(F64 { bits: 0x3e11_2e0b_e826_d695 })) * 1_000_000_000 >= pow2(1074),
{
    let (c, d) = (F64 { bits: 0x3e11_2e0b_e826_d694 }, F64 { bits: 0x3e11_2e0b_e826_d695 });
    lemma2_to64();
    lemma2_to64_rest();
    lemma_pow2_adds(41, 41);
    lemma_pow2_adds(82, 992);
    lemma_pow2_pos(992);
    let u = pow2(992) as int;
    assert(c.biased() == 993 && d.biased() == 993);
    assert(c.sig() == 0x11_2e0b_e826_d694 && d.sig() == 0x11_2e0b_e826_d695);
    assert(pow2(82) == 0x200_0000_0000 * 0x200_0000_0000);
    assert((0x11_2e0b_e826_d694 * u) * 1_000_000_000 < pow2(1074)) by (nonlinear_arith)
        requires
            pow2(1074) == pow2(82) * u,
            pow2(82) == 0x200_0000_0000 * 0x200_0000_0000,
            u > 0,
    ;
    assert((0x11_2e0b_e826_d695 * u) * 1_000_000_000 >= pow2(1074)) by (nonlinear_arith)
        requires
            pow2(1074) == pow2(82) * u,
            pow2(82) == 0x200_0000_0000 * 0x200_0000_0000,
            u > 0,
    ;
}

/// The binary64 number nearest to a twentieth.
pub proof fn lemma_twentieth()
    ensures
        ({
            let v = F64 { bits: 0x3fa9_9999_9999_999a };
            !v.nan() && 0 <= 20 * weight64(v) - pow2(1074) <= 8 * pow2(1017)
        }),
{
    let v = F64 { bits: 0x3fa9_9999_9999_999a };
    lemma2_to64();
    lemma2_to64_rest();
    lemma_pow2_adds(57, 1017);
    assert(v.biased() == 1018 && v.sig() == 0x19_9999_9999_999a);
    let u = pow2(1017) as int;
    assert(20 * (0x19_9999_9999_999a * u) - 0x200_0000_0000_0000 * u == 8 * u)
        by (nonlinear_arith);
    assert(pow2(57) == 0x200_0000_0000_0000);
}

/// Four, nothing, one and a half in binary32.
pub proof fn lemma_default_knobs()
    ensures
        weight(F32 { bits: 0x4080_0000 }) == 4 * pow2(149),
        weight(F32 { bits: 0 }) == 0,
        weight(F32 { bits: 0x3f80_0000 }) == pow2(149),
        2 * weight(F32 { bits: 0x3f00_0000 }) == pow2(149),
{
    let (four, none, one, half) = (
        F32 { bits: 0x4080_0000 },
        F32 { bits: 0 },
        F32 { bits: 0x3f80_0000 },
        F32 { bits: 0x3f00_0000 },
    );
    lemma2_to64();
    lemma_pow2_adds(23, 126);
    lemma_pow2_unfold(126);
    lemma_pow2_unfold(127);
    lemma_pow2_unfold(128);
    assert(four.sig() == 0x80_0000 && four.exp() == -21);
    assert(one.sig() == 0x80_0000 && one.exp() == -23);
    assert(half.sig() == 0x80_0000 && half.exp() == -24);
    assert(none.sig() == 0);
    assert(0 * pow2((none.exp() + 149) as nat) == 0) by (nonlinear_arith);
}

/// A magnitude below the threshold's is one below 10^-9.
pub proof fn lemma_threshold(v: F64)
    ensures
        analysis::magnitude_key(v) < 0x3e11_2e0b_e826_d695 <==> distance(weight64(v))
            * 1_000_000_000 < pow2(1074),
{
    lemma_around_threshold();
    if analysis::magnitude_key(v) < 0x3e11_2e0b_e826_d695 {
        lemma_closer_to_zero(v, F64 { bits: 0x3e11_2e0b_e826_d694 });
    } else {
        lemma_closer_to_zero(F64 { bits: 0x3e11_2e0b_e826_d695 }, v);
    }
}

/// A ranking lists every sensitivity, the larger spreads first, and equal ones
/// in the order they were measured in.
pub proof fn lemma_ranking_descends(spreads: Seq<F64>, order: Seq<usize>)
    requires
        analysis::is_ranking(spreads, order),
    ensures
        order.len() == spreads.len(),
        forall|v: usize| v < spreads.len() ==> #[trigger] order.contains(v),
        forall|k: int, l: int|
            0 <= k < l < order.len() ==> {
                let (a, b) = (#[trigger] order[k] as int, #[trigger] order[l] as int);
                &&& weight64(spreads[a]) >= weight64(spreads[b])
                &&& weight64(spreads[a]) == weight64(spreads[b]) ==> a < b
            },
{
    assert forall|v: usize| v < spreads.len() implies #[trigger] order.contains(v) by {
        let i = analysis::lemma_permutation_hits(order, spreads.len(), v as nat);
        assert(order[i] == v);
    }
    assert forall|k: int, l: int| 0 <= k < l < order.len() implies {
        let (a, b) = (#[trigger] order[k] as int, #[trigger] order[l] as int);
        &&& weight64(spreads[a]) >= weight64(spreads[b])
        &&& weight64(spreads[a]) == weight64(spreads[b]) ==> a < b
    } by {
        let (a, b) = (order[k] as int, order[l] as int);
        assert(analysis::before(spreads, a, b));
        lemma_order_of_numbers(spreads[a], spreads[b]);
        lemma_order_of_numbers(spreads[b], spreads[a]);
    }
}

/// Sensitivities put in order by a ranking of their spreads are all there, the
/// larger spreads first, and equal ones in the order they were measured in.
pub proof fn lemma_ranked_descend(all: Seq<Sensitivity>, order: Seq<usize>)
    requires
        analysis::is_ranking(analysis::spreads_of(all), order),
    ensures
        ({
            let r = order.map_values(|i: usize| all[i as int]);
            &&& r.len() == all.len()
            &&& forall|i: int| 0 <= i < all.len() ==> #[trigger] r.contains(all[i])
            &&& forall|k: int, l: int|
                0 <= k < l < r.len() ==> weight64((#[trigger] r[k]).spread) >= weight64(
                    (#[trigger] r[l]).spread,
                )
        }),
        forall|k: int, l: int|
            0 <= k < l < order.len() && weight64(all[order[k] as int].spread) == weight64(
                all[order[l] as int].spread,
            ) ==> #[trigger] order[k] < #[trigger] order[l],
{
    let spreads = analysis::spreads_of(all);
    lemma_ranking_descends(spreads, order);
    let r = order.map_values(|i: usize| all[i as int]);
    assert(spreads.len() == all.len());
    assert forall|i: int| 0 <= i < all.len() implies spreads[i] == (#[trigger] all[i]).spread by {}
    assert forall|i: int| 0 <= i < all.len() implies #[trigger] r.contains(all[i]) by {
        let k = analysis::lemma_permutation_hits(order, spreads.len(), i as nat);
        assert(r[k] == all[i]);
    }
    assert forall|k: int, l: int| 0 <= k < l < r.len() implies weight64((#[trigger] r[k]).spread)
        >= weight64((#[trigger] r[l]).spread) by {
        let (a, b) = (order[k] as int, order[l] as int);
        assert(weight64(spreads[a]) >= weight64(spreads[b]));
        assert(r[k] == all[a] && r[l] == all[b]);
    }
    assert forall|k: int, l: int|
        0 <= k < l < order.len() && weight64(all[order[k] as int].spread) == weight64(
            all[order[l] as int].spread,
        ) implies #[trigger] order[k] < #[trigger] order[l] by {
        assert(spreads[order[k] as int] == all[order[k] as int].spread);
        assert(spreads[order[l] as int] == all[order[l] as int].spread);
    }
}

/// A coordinate that 64 bits do not hold is taken to be the last integer that
/// they do, and what is not a number to be the origin.
pub proof fn lemma_split_beyond(v: F64)
    ensures
        v.nan() ==> lattice::split_of(v) == Lat::at(0),
        !v.nan() && weight64(v) >= 0x8000_0000_0000_0000 * pow2(1074) ==> lattice::split_of(v)
            == Lat::at(0x7fff_ffff_ffff_ffff * fixed::ONE),
        !v.nan() && weight64(v) <= -0x8000_0000_0000_0000 * pow2(1074) ==> lattice::split_of(v)
            == Lat::at(-0x8000_0000_0000_0000 * fixed::ONE),
{
    let (sig, x) = (v.sig(), (v.exp() + 1074) as nat);
    let (w, unit, limit) = (sig * pow2(x), pow2(1074), 0x8000_0000_0000_0000nat);
    lemma2_to64();
    lemma2_to64_rest();
    lemma_pow2_pos(1074);
    lemma_pow2_pos(x);
    assert(w >= 0) by (nonlinear_arith)
        requires
            w == sig * pow2(x),
    ;
    if !v.nan() && w >= limit * unit {
        if v.exp() < 0 {
            lemma_pow2_strictly_increases(x, 1074);
            assert(w < limit * unit) by (nonlinear_arith)
                requires
                    w == sig * pow2(x),
                    sig < limit,
                    pow2(x) < unit,
                    unit > 0,
            ;
        }
        let e = v.exp() as nat;
        let whole = sig * pow2(e);
        lemma_pow2_adds(e, 1074);
        assert(w == whole * unit) by (nonlinear_arith)
            requires
                w == sig * pow2(x),
                pow2(x) == pow2(e) * unit,
                whole == sig * pow2(e),
        ;
        assert(whole >= limit) by (nonlinear_arith)
            requires
                whole * unit >= limit * unit,
                unit > 0,
        ;
    }
    assert(limit * unit > 0) by (nonlinear_arith)
        requires
            limit > 0,
            unit > 0,
    ;
    assert((-0x8000_0000_0000_0000) * (unit as int) == -(0x8000_0000_0000_0000 * (unit as int)));
}

/// An infinite frequency times a tile index is infinite, with the sign of a
/// product; times index zero it is not a number.
pub proof fn lemma_scaled_infinite(x: i64, f: F32)
    requires
        f.biased() == 255,
    ensures
        f.nan() || x == 0 ==> ieee::scaled(x, f).nan(),
        !f.nan() && x != 0 ==> {
            let v = ieee::scaled(x, f);
            &&& !v.nan()
            &&& x > 0 && weight(f) > 0 || x < 0 && weight(f) < 0 ==> weight64(v) == pow2(2098)
            &&& x > 0 && weight(f) < 0 || x < 0 && weight(f) > 0 ==> weight64(v) == -pow2(2098)
        },
{
    let v = ieee::scaled(x, f);
    lemma2_to64();
    lemma2_to64_rest();
    lemma_pow2_adds(52, 2046);
    lemma_pow2_pos((f.exp() + 149) as nat);
    assert(f.sig() * pow2((f.exp() + 149) as nat) >= 0) by (nonlinear_arith);
    if !f.nan() && x != 0 {
        assert(v.biased() == 2047 && v.fraction() == 0);
        assert(v.sig() == pow2(52) && v.exp() == 972);
    }
}

} // verus!
