//! Integer mathematics that the contracts are stated in.

use vstd::prelude::*;

verus! {

/// `n / d` for a positive `d`, rounded towards zero.
pub open spec fn trunc_div(n: int, d: int) -> int {
    if n >= 0 {
        n / d
    } else {
        -((-n) / d)
    }
}

/// The representative of `n` modulo 2^32 that an `i32` can hold.
pub open spec fn wrap_i32(n: int) -> int {
    (n + 0x8000_0000) % 0x1_0000_0000 - 0x8000_0000
}

/// Whether an `i32` can hold `n`.
pub open spec fn fits_i32(n: int) -> bool {
    i32::MIN <= n <= i32::MAX
}

/// The number nearest to `n` that an `i32` can hold.
pub open spec fn saturate_i32(n: int) -> int {
    if n < i32::MIN {
        i32::MIN as int
    } else if n > i32::MAX {
        i32::MAX as int
    } else {
        n
    }
}

/// The number nearest to `n` that an `i64` can hold.
pub open spec fn saturate_i64(n: int) -> int {
    if n < i64::MIN {
        i64::MIN as int
    } else if n > i64::MAX {
        i64::MAX as int
    } else {
        n
    }
}

/// The largest natural number whose square does not exceed `n`.
pub open spec fn floor_sqrt(n: nat) -> nat {
    choose|r: nat| is_floor_sqrt(n, r)
}

/// Whether `r` is the floor of the square root of `n`.
pub open spec fn is_floor_sqrt(n: nat, r: nat) -> bool {
    r * r <= n < (r + 1) * (r + 1)
}

/// Every natural number has a floor of its square root.
pub proof fn lemma_floor_sqrt_exists(n: nat)
    ensures
        is_floor_sqrt(n, floor_sqrt(n)),
    decreases n,
{
    if n == 0 {
        assert(is_floor_sqrt(0, 0)) by (nonlinear_arith);
    } else {
        let m = (n - 1) as nat;
        lemma_floor_sqrt_exists(m);
        let r = floor_sqrt(m);
        if (r + 1) * (r + 1) <= n {
            assert((r + 1) * (r + 1) < (r + 2) * (r + 2)) by (nonlinear_arith);
            assert(is_floor_sqrt(n, r + 1));
        } else {
            assert(is_floor_sqrt(n, r));
        }
    }
}

/// At most one number is the floor of a square root.
pub proof fn lemma_floor_sqrt_unique(n: nat, r: nat)
    requires
        is_floor_sqrt(n, r),
    ensures
        floor_sqrt(n) == r,
{
    let s = floor_sqrt(n);
    assert(is_floor_sqrt(n, s));
    if s < r {
        assert((s + 1) * (s + 1) <= r * r) by (nonlinear_arith)
            requires
                s + 1 <= r,
        ;
    } else if r < s {
        assert((r + 1) * (r + 1) <= s * s) by (nonlinear_arith)
            requires
                r + 1 <= s,
        ;
    }
}

/// Wrapping around leaves a number that fits, a multiple of 2^32 away.
pub proof fn lemma_wrap_is_congruent(n: int) -> (k: int)
    ensures
        fits_i32(wrap_i32(n)),
        n == wrap_i32(n) + k * 0x1_0000_0000,
        fits_i32(n) ==> wrap_i32(n) == n,
{
    (n + 0x8000_0000) / 0x1_0000_0000
}

/// Saturating leaves a number that fits, and none that fits is nearer.
pub proof fn lemma_saturate_is_nearest(n: int, m: int)
    ensures
        fits_i32(saturate_i32(n)),
        fits_i32(n) ==> saturate_i32(n) == n,
        fits_i32(m) && m <= n ==> m <= saturate_i32(n) <= n,
        fits_i32(m) && m >= n ==> m >= saturate_i32(n) >= n,
        i64::MIN <= saturate_i64(n) <= i64::MAX,
        i64::MIN <= n <= i64::MAX ==> saturate_i64(n) == n,
        i64::MIN <= m <= i64::MAX && m <= n ==> m <= saturate_i64(n) <= n,
        i64::MIN <= m <= i64::MAX && m >= n ==> m >= saturate_i64(n) >= n,
{
}

/// Dividing towards zero drops the fraction, whatever the sign.
pub proof fn lemma_trunc_div(n: int, d: int)
    requires
        d > 0,
    ensures
        n >= 0 ==> trunc_div(n, d) * d <= n < (trunc_div(n, d) + 1) * d,
        n <= 0 ==> (trunc_div(n, d) - 1) * d < n <= trunc_div(n, d) * d,
{
    let m = if n >= 0 {
        n
    } else {
        -n
    };
    vstd::arithmetic::div_mod::lemma_fundamental_div_mod(m, d);
    vstd::arithmetic::div_mod::lemma_mod_bound(m, d);
    let q = m / d;
    assert(q * d <= m < (q + 1) * d) by (nonlinear_arith)
        requires
            m == d * q + m % d,
            0 <= m % d < d,
    ;
    assert((-q) * d == -(q * d) && (-q - 1) * d == -((q + 1) * d)) by (nonlinear_arith);
    assert(n == 0 ==> q == 0 && (0 - 1) * d < 0) by {
        if n == 0 {
            vstd::arithmetic::div_mod::lemma_div_of0(d);
        }
    }
}

/// Truncating a `u64` to an `i32` keeps the value modulo 2^32.
pub proof fn lemma_u64_as_i32(x: u64)
    ensures
        x as i32 == wrap_i32(x as int),
{
    assert(x as i32 == (x + 0x8000_0000) % 0x1_0000_0000 - 0x8000_0000) by (bit_vector);
}

/// Truncating an `i64` to an `i32` keeps the value modulo 2^32.
pub proof fn lemma_i64_as_i32(x: i64)
    ensures
        x as i32 == wrap_i32(x as int),
{
    assert(x as i32 == (x + 0x8000_0000) % 0x1_0000_0000 - 0x8000_0000) by (bit_vector);
}

} // verus!
