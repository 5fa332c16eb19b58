//! Integer hashing: the addressability substrate.
//!
//! Every value this crate generates is a pure function of a coordinate
//! and a seed, with no stream state in between. That is what makes a
//! texture *addressable*: a distant tile costs the same to evaluate as
//! tile (0, 0), and evaluating it does not depend on which tiles were
//! evaluated before it.
//!
//! The mixing function is the PCG output permutation
//! `xorshift-multiply-xorshift`. Each of its steps can be undone, so no
//! two words mix to the same one, and hashes of coordinates that differ
//! in one component only never collide.

use vstd::arithmetic::power2::*;
use vstd::prelude::*;

use crate::fixed;
use crate::ieee;
use crate::ieee::F32;
use crate::numbers;
use crate::seam;

verus! {

/// Fold the high bits of a word onto the low ones.
pub open spec fn xorshift(x: u32, k: u32) -> u32 {
    x ^ (x >> k)
}

/// The mixing permutation.
pub open spec fn mixed(x: u32) -> u32 {
    let a = xorshift(x, 16).wrapping_mul(0x7feb_352d);
    let b = xorshift(a, 15).wrapping_mul(0x846c_a68b);
    xorshift(b, 16)
}

/// Mix a single 32-bit word.
///
/// Every constant here is odd, so the multiply is invertible and no two
/// inputs collapse onto one output.
pub fn mix(x: u32) -> (r: u32)
    ensures
        r == mixed(x),
{
    let mut x: u32 = x;
    x = x ^ (x >> 16u32);
    x = x.wrapping_mul(0x7feb_352d);
    x = x ^ (x >> 15u32);
    x = x.wrapping_mul(0x846c_a68b);
    x = x ^ (x >> 16u32);
    x
}

/// The word that a 2D coordinate and a seed fold into before mixing.
pub open spec fn folded2(x: i32, y: i32, seed: u32) -> u32 {
    (x as u32).wrapping_mul(0x27d4_eb2d) ^ (y as u32).wrapping_mul(0x1656_67b1)
        ^ seed.wrapping_mul(0x9e37_79b1)
}

/// The hash of a 2D coordinate against a seed.
#[verifier::opaque]
pub open spec fn hashed2(x: i32, y: i32, seed: u32) -> u32 {
    mixed(folded2(x, y, seed))
}

/// Hash a 2D integer coordinate against a seed.
///
/// The coordinates are folded in with distinct odd multipliers before
/// mixing, so that the hash is not symmetric about the diagonal;
/// [`lemma_hash2_mirror`] says which mirror images still share one.
pub fn hash2(x: i32, y: i32, seed: u32) -> (r: u32)
    ensures
        r == hashed2(x, y, seed),
{
    reveal(hashed2);
    let h: u32 = (#[verifier::truncate] (x as u32)).wrapping_mul(0x27d4_eb2d)
        ^ (#[verifier::truncate] (y as u32)).wrapping_mul(0x1656_67b1)
        ^ seed.wrapping_mul(0x9e37_79b1);
    mix(h)
}

/// The hash of a 3D coordinate against a seed.
#[verifier::opaque]
pub open spec fn hashed3(x: i32, y: i32, z: i32, seed: u32) -> u32 {
    mixed(
        (x as u32).wrapping_mul(0x27d4_eb2d) ^ (y as u32).wrapping_mul(0x1656_67b1)
            ^ (z as u32).wrapping_mul(0x0d2f_1b3d) ^ seed.wrapping_mul(0x9e37_79b1),
    )
}

/// Hash a 3D integer coordinate, for a second decorrelated value in a cell.
pub fn hash3(x: i32, y: i32, z: i32, seed: u32) -> (r: u32)
    ensures
        r == hashed3(x, y, z, seed),
{
    reveal(hashed3);
    let h: u32 = (#[verifier::truncate] (x as u32)).wrapping_mul(0x27d4_eb2d)
        ^ (#[verifier::truncate] (y as u32)).wrapping_mul(0x1656_67b1)
        ^ (#[verifier::truncate] (z as u32)).wrapping_mul(0x0d2f_1b3d)
        ^ seed.wrapping_mul(0x9e37_79b1);
    mix(h)
}

/// A uniform binary32 number in `[0, 1)` from a hash: its top 23 bits over
/// 2^23, which no rounding touches.
pub fn unit_f32(h: u32) -> (r: F32)
    ensures
        r.bits == ieee::nearest_f32(false, h as nat / 512, -23),
        r.bits < 0x3f80_0000,
        !r.nan(),
        0 <= h * pow2(117) - seam::weight(r) < pow2(126),
{
    let n: u32 = h / 512;
    proof {
        lemma_unit_digits(n);
        numbers::lemma_short_as_f32(false, n as nat, 23);
        numbers::lemma_hash_along(h);
    }
    ieee::round_f32(false, n as u128, -23)
}

/// A uniform binary32 number in `[-1, 1)` from a hash: its top 23 bits over
/// 2^22, less one, which no rounding touches.
pub fn signed_f32(h: u32) -> (r: F32)
    ensures
        r.bits == ieee::nearest_f32(
            h / 512 < 0x40_0000,
            fixed::magnitude_of(h as int / 512 - 0x40_0000),
            -22,
        ),
        !r.nan(),
        0 <= (h - 0x8000_0000) * pow2(118) - seam::weight(r) < pow2(127),
{
    let n: u32 = h / 512;
    proof {
        lemma_unit_digits(n);
        numbers::lemma_hash_along(h);
        let m = n - 0x40_0000;
        assert((-m) * pow2(127) == -(m * pow2(127))) by (nonlinear_arith);
        if n < 0x40_0000 {
            lemma_unit_digits((0x40_0000 - n) as u32);
            numbers::lemma_short_as_f32(true, (0x40_0000 - n) as nat, 22);
        } else {
            lemma_unit_digits((n - 0x40_0000) as u32);
            numbers::lemma_short_as_f32(false, (n - 0x40_0000) as nat, 22);
        }
    }
    if n < 0x40_0000 {
        ieee::round_f32(true, (0x40_0000 - n) as u128, -22)
    } else {
        ieee::round_f32(false, (n - 0x40_0000) as u128, -22)
    }
}

/// 23 digits are held exactly.
proof fn lemma_unit_digits(n: u32)
    requires
        n < 0x80_0000,
    ensures
        ieee::bit_length(n as nat) <= 23,
        n > 0 ==> ieee::bit_length(n as nat) >= 1,
        ieee::nearest_f32(false, n as nat, -23) < 0x3f80_0000,
{
    lemma2_to64();
    ieee::lemma_bit_length_below(n as nat, 23);
    ieee::lemma_bit_length(n as nat);
    if n > 0 {
        lemma_exact_digits(n as nat);
        ieee::lemma_nearest_f32_parts(false, n as nat, -23);
    }
}

/// A number of at most 23 digits is its own significand.
proof fn lemma_exact_digits(n: nat)
    requires
        0 < n,
        ieee::bit_length(n) <= 23,
    ensures
        ieee::significand(n, 24) < 0x100_0000,
        ieee::significand(n, 24) == n * pow2((24 - ieee::bit_length(n)) as nat),
{
    lemma2_to64();
    let len = ieee::bit_length(n);
    let k = (24 - len) as nat;
    ieee::lemma_bit_length(n);
    lemma_pow2_pos(k);
    lemma_pow2_adds(k, len);
    assert(n * pow2(k) < pow2(24)) by (nonlinear_arith)
        requires
            n < pow2(len),
            pow2(24) == pow2(k) * pow2(len),
            pow2(k) > 0,
    ;
}

/// A number of at most 23 digits over 2^d, with `d` at most 27, converts to
/// fixed point without loss.
proof fn lemma_converts_exactly(neg: bool, n: nat, d: nat)
    requires
        ieee::bit_length(n) <= 23,
        20 <= d <= 27,
    ensures
        fixed::converted(F32 { bits: ieee::nearest_f32(neg, n, -d) as u32 }) == if neg {
            -(n * pow2((27 - d) as nat))
        } else {
            (n * pow2((27 - d) as nat)) as int
        },
{
    lemma2_to64();
    ieee::lemma_bit_length(n);
    let f = F32 { bits: ieee::nearest_f32(neg, n, -d) as u32 };
    let up = (27 - d) as nat;
    if n == 0 {
        lemma_pow2_pos(122);
        vstd::arithmetic::div_mod::lemma_basic_div(0, pow2(122) as int);
        assert(0 * pow2(up) == 0) by (nonlinear_arith);
    } else {
        let len = ieee::bit_length(n);
        let k = (24 - len) as nat;
        ieee::lemma_nearest_f32_parts(neg, n, -d);
        lemma_exact_digits(n);
        let s = ieee::significand(n, 24);
        assert(f.exp() + 27 == up - k);
        assert(ieee::floor_scaled(s, up - k) == n * pow2(up)) by {
            lemma_pow2_pos(k);
            if up >= k {
                lemma_pow2_adds(k, (up - k) as nat);
                assert((n * pow2(k)) * pow2((up - k) as nat) == n * (pow2(k) * pow2(
                    (up - k) as nat,
                ))) by (nonlinear_arith);
            } else {
                let m = (k - up) as nat;
                lemma_pow2_pos(m);
                lemma_pow2_adds(m, up);
                assert(n * (pow2(m) * pow2(up)) == pow2(m) * (n * pow2(up))) by (nonlinear_arith);
                vstd::arithmetic::div_mod::lemma_div_multiples_vanish(
                    (n * pow2(up)) as int,
                    pow2(m) as int,
                );
            }
        }
        lemma_pow2_strictly_increases(len, 24);
        assert(n * pow2(up) <= 0x80_0000 * 128) by (nonlinear_arith)
            requires
                n <= 0x80_0000,
                pow2(up) <= 128,
        ;
    }
}

/// A hash stands for the same value in both formats: the fixed-point one is
/// the floating-point one, exactly.
pub proof fn lemma_signed_formats_agree(h: u32)
    ensures
        fixed::converted(
            F32 {
                bits: ieee::nearest_f32(
                    h / 512 < 0x40_0000,
                    fixed::magnitude_of(h as int / 512 - 0x40_0000),
                    -22,
                ) as u32,
            },
        ) == crate::exact::signed_value(h),
{
    lemma2_to64();
    let n = fixed::magnitude_of(h as int / 512 - 0x40_0000);
    ieee::lemma_bit_length_below(n, 23);
    lemma_converts_exactly(h / 512 < 0x40_0000, n, 22);
    assert(pow2((27 - 22) as nat) == 32);
    assert(n * pow2((27 - 22) as nat) == n * 32);
}

/// The unit value of a hash is its top 23 bits over 2^23, exactly.
pub proof fn lemma_unit_exact(h: u32)
    ensures
        fixed::converted(
            F32 { bits: ieee::nearest_f32(false, h as nat / 512, -23) as u32 },
        ) == (h as int / 512) * 16,
{
    lemma2_to64();
    ieee::lemma_bit_length_below(h as nat / 512, 23);
    lemma_converts_exactly(false, h as nat / 512, 23);
}

/// Multiplying by `c` and then by its inverse modulo 2^32 changes nothing.
proof fn lemma_mul_undone(x: u32, c: u32, inverse: u32)
    requires
        (c as int * inverse as int) % 0x1_0000_0000 == 1,
    ensures
        x.wrapping_mul(c).wrapping_mul(inverse) == x,
{
    let m = 0x1_0000_0000int;
    let (xi, ci, vi) = (x as int, c as int, inverse as int);
    vstd::arithmetic::div_mod::lemma_mul_mod_noop_left(xi * ci, vi, m);
    assert((xi * ci) * vi == xi * (ci * vi)) by (nonlinear_arith);
    vstd::arithmetic::div_mod::lemma_mul_mod_noop_right(xi, ci * vi, m);
    assert(xi * 1 == xi);
    vstd::arithmetic::div_mod::lemma_small_mod(x as nat, m as nat);
}

/// Multiplication by an odd constant whose inverse is known loses nothing.
pub proof fn lemma_mul_injective(x: u32, y: u32, c: u32, inverse: u32)
    requires
        (c as int * inverse as int) % 0x1_0000_0000 == 1,
        x.wrapping_mul(c) == y.wrapping_mul(c),
    ensures
        x == y,
{
    lemma_mul_undone(x, c, inverse);
    lemma_mul_undone(y, c, inverse);
}

/// The mixing permutation undone, step by step from the last: the shifts
/// folded back, and the multipliers' inverses modulo 2^32 in their place.
pub open spec fn unmixed(y: u32) -> u32 {
    let b = (y ^ (y >> 16)).wrapping_mul(0x4302_1123);
    let a = (b ^ (b >> 15) ^ (b >> 30)).wrapping_mul(0x1d69_e2a5);
    a ^ (a >> 16)
}

/// Folding can be undone.
proof fn lemma_shifts_undone(x: u32)
    ensures
        ({
            let y = x ^ (x >> 16);
            y ^ (y >> 16) == x
        }),
        ({
            let y = x ^ (x >> 15);
            y ^ (y >> 15) ^ (y >> 30) == x
        }),
{
    let (y, z) = (x ^ (x >> 16u32), x ^ (x >> 15u32));
    assert(y ^ (y >> 16u32) == x && z ^ (z >> 15u32) ^ (z >> 30u32) == x) by (bit_vector)
        requires
            y == x ^ (x >> 16u32),
            z == x ^ (x >> 15u32),
    ;
}

/// Mixing loses nothing: every word can be had back.
pub proof fn lemma_mix_undone(x: u32)
    ensures
        unmixed(mixed(x)) == x,
{
    let c = xorshift(x, 16);
    let a = c.wrapping_mul(0x7feb_352d);
    let d = xorshift(a, 15);
    let b = d.wrapping_mul(0x846c_a68b);
    lemma_shifts_undone(b);
    lemma_mul_undone(d, 0x846c_a68b, 0x4302_1123);
    lemma_shifts_undone(a);
    lemma_mul_undone(c, 0x7feb_352d, 0x1d69_e2a5);
    lemma_shifts_undone(x);
}

/// The mixing function is invertible: no two words mix to the same one.
pub proof fn lemma_mix_injective(x: u32, y: u32)
    requires
        mixed(x) == mixed(y),
    ensures
        x == y,
{
    lemma_mix_undone(x);
    lemma_mix_undone(y);
}

/// A component of a coordinate times its multiplier, modulo 2^32.
pub open spec fn spread_out(n: int, by: int) -> u32 {
    ((n * by) % 0x1_0000_0000) as u32
}

/// Multiplying an unsigned word multiplies the number it stands for.
proof fn lemma_spread_out(x: i32, by: u32)
    ensures
        (x as u32).wrapping_mul(by) == spread_out(x as int, by as int),
{
    let m = 0x1_0000_0000int;
    let u = x as u32;
    assert((x < 0 ==> u == x + 0x1_0000_0000) && (x >= 0 ==> u == x)) by (bit_vector)
        requires
            u == x as u32,
    ;
    assert(u == x as int % m);
    vstd::arithmetic::div_mod::lemma_mul_mod_noop_left(x as int, by as int, m);
}

/// A hash mixes every component of a coordinate and the seed, each times a
/// multiplier of its own: undoing the mixing gives their combination back.
pub proof fn lemma_hash2_mixes_everything(x: i32, y: i32, seed: u32)
    ensures
        unmixed(hashed2(x, y, seed)) == spread_out(x as int, 0x27d4_eb2d) ^ spread_out(
            y as int,
            0x1656_67b1,
        ) ^ spread_out(seed as int, 0x9e37_79b1),
{
    reveal(hashed2);
    lemma_mix_undone(folded2(x, y, seed));
    lemma_spread_out(x, 0x27d4_eb2d);
    lemma_spread_out(y, 0x1656_67b1);
}

/// The same for a coordinate of three components.
pub proof fn lemma_hash3_mixes_everything(x: i32, y: i32, z: i32, seed: u32)
    ensures
        unmixed(hashed3(x, y, z, seed)) == spread_out(x as int, 0x27d4_eb2d) ^ spread_out(
            y as int,
            0x1656_67b1,
        ) ^ spread_out(z as int, 0x0d2f_1b3d) ^ spread_out(seed as int, 0x9e37_79b1),
{
    reveal(hashed3);
    lemma_mix_undone(
        (x as u32).wrapping_mul(0x27d4_eb2d) ^ (y as u32).wrapping_mul(0x1656_67b1)
            ^ (z as u32).wrapping_mul(0x0d2f_1b3d) ^ seed.wrapping_mul(0x9e37_79b1),
    );
    lemma_spread_out(x, 0x27d4_eb2d);
    lemma_spread_out(y, 0x1656_67b1);
    lemma_spread_out(z, 0x0d2f_1b3d);
}

/// Cells along a row never share a hash.
pub proof fn lemma_hash2_injective_in_x(x1: i32, x2: i32, y: i32, seed: u32)
    requires
        hashed2(x1, y, seed) == hashed2(x2, y, seed),
    ensures
        x1 == x2,
{
    reveal(hashed2);
    lemma_mix_injective(folded2(x1, y, seed), folded2(x2, y, seed));
    let (a, b) = (
        (x1 as u32).wrapping_mul(0x27d4_eb2d),
        (x2 as u32).wrapping_mul(0x27d4_eb2d),
    );
    let (c, d) = ((y as u32).wrapping_mul(0x1656_67b1), seed.wrapping_mul(0x9e37_79b1));
    assert(a == b) by (bit_vector)
        requires
            a ^ c ^ d == b ^ c ^ d,
    ;
    lemma_mul_injective(x1 as u32, x2 as u32, 0x27d4_eb2d, 0xfb69_9ca5);
    lemma_i32_as_u32_injective(x1, x2);
}

/// Cells along a column never share a hash.
pub proof fn lemma_hash2_injective_in_y(x: i32, y1: i32, y2: i32, seed: u32)
    requires
        hashed2(x, y1, seed) == hashed2(x, y2, seed),
    ensures
        y1 == y2,
{
    reveal(hashed2);
    lemma_mix_injective(folded2(x, y1, seed), folded2(x, y2, seed));
    let (a, b) = (
        (y1 as u32).wrapping_mul(0x1656_67b1),
        (y2 as u32).wrapping_mul(0x1656_67b1),
    );
    let (c, d) = ((x as u32).wrapping_mul(0x27d4_eb2d), seed.wrapping_mul(0x9e37_79b1));
    assert(a == b) by (bit_vector)
        requires
            c ^ a ^ d == c ^ b ^ d,
    ;
    lemma_mul_injective(y1 as u32, y2 as u32, 0x1656_67b1, 0xae39_8151);
    lemma_i32_as_u32_injective(y1, y2);
}

/// Neighbouring cells always hash apart: at least one bit differs between a
/// cell and the next along either axis, around the end of the lattice too.
pub proof fn lemma_hash2_neighbours_differ(x: i32, y: i32, seed: u32)
    ensures
        hashed2(x, y, seed) ^ hashed2(x.wrapping_add(1), y, seed) != 0,
        hashed2(x, y, seed) ^ hashed2(x, y.wrapping_add(1), seed) != 0,
{
    let h = hashed2(x, y, seed);
    let (right, down) = (
        hashed2(x.wrapping_add(1), y, seed),
        hashed2(x, y.wrapping_add(1), seed),
    );
    if h == right {
        lemma_hash2_injective_in_x(x, x.wrapping_add(1), y, seed);
    }
    if h == down {
        lemma_hash2_injective_in_y(x, y, y.wrapping_add(1), seed);
    }
    assert(h ^ right != 0) by (bit_vector)
        requires
            h != right,
    ;
    assert(h ^ down != 0) by (bit_vector)
        requires
            h != down,
    ;
}

/// The seed moves the field everywhere: two seeds hash no cell alike.
pub proof fn lemma_hash2_injective_in_seed(x: i32, y: i32, seed1: u32, seed2: u32)
    requires
        hashed2(x, y, seed1) == hashed2(x, y, seed2),
    ensures
        seed1 == seed2,
{
    reveal(hashed2);
    lemma_mix_injective(folded2(x, y, seed1), folded2(x, y, seed2));
    let (a, b) = (seed1.wrapping_mul(0x9e37_79b1), seed2.wrapping_mul(0x9e37_79b1));
    let c = (x as u32).wrapping_mul(0x27d4_eb2d) ^ (y as u32).wrapping_mul(0x1656_67b1);
    assert(a == b) by (bit_vector)
        requires
            c ^ a == c ^ b,
    ;
    lemma_mul_injective(seed1, seed2, 0x9e37_79b1, 0x0e8b_2f51);
}

/// Layers of a cell never share a hash.
pub proof fn lemma_hash3_injective_in_z(x: i32, y: i32, z1: i32, z2: i32, seed: u32)
    requires
        hashed3(x, y, z1, seed) == hashed3(x, y, z2, seed),
    ensures
        z1 == z2,
{
    reveal(hashed3);
    let (a, b) = (
        (z1 as u32).wrapping_mul(0x0d2f_1b3d),
        (z2 as u32).wrapping_mul(0x0d2f_1b3d),
    );
    let c = (x as u32).wrapping_mul(0x27d4_eb2d) ^ (y as u32).wrapping_mul(0x1656_67b1);
    let d = seed.wrapping_mul(0x9e37_79b1);
    lemma_mix_injective(c ^ a ^ d, c ^ b ^ d);
    assert(a == b) by (bit_vector)
        requires
            c ^ a ^ d == c ^ b ^ d,
    ;
    lemma_mul_injective(z1 as u32, z2 as u32, 0x0d2f_1b3d, 0x292a_1415);
    lemma_i32_as_u32_injective(z1, z2);
}

/// What a coordinate on the diagonal folds into, before the seed.
pub open spec fn diagonal(x: i32) -> u32 {
    (x as u32).wrapping_mul(0x27d4_eb2d) ^ (x as u32).wrapping_mul(0x1656_67b1)
}

/// A coordinate and its mirror image about the diagonal share a hash only
/// where the two diagonal cells they project to fold alike.
pub proof fn lemma_hash2_mirror(x: i32, y: i32, seed: u32)
    ensures
        hashed2(x, y, seed) == hashed2(y, x, seed) <==> diagonal(x) == diagonal(y),
{
    reveal(hashed2);
    let (xa, xb) = (
        (x as u32).wrapping_mul(0x27d4_eb2d),
        (x as u32).wrapping_mul(0x1656_67b1),
    );
    let (ya, yb) = (
        (y as u32).wrapping_mul(0x27d4_eb2d),
        (y as u32).wrapping_mul(0x1656_67b1),
    );
    let s = seed.wrapping_mul(0x9e37_79b1);
    assert(xa ^ yb ^ s == ya ^ xb ^ s <==> xa ^ xb == ya ^ yb) by (bit_vector);
    if hashed2(x, y, seed) == hashed2(y, x, seed) {
        lemma_mix_injective(folded2(x, y, seed), folded2(y, x, seed));
    }
}

/// A walk along the diagonal repeats a hash only where the diagonal cells
/// fold alike, whatever the seed.
pub proof fn lemma_hash2_diagonal(x: i32, y: i32, seed: u32)
    ensures
        hashed2(x, x, seed) == hashed2(y, y, seed) <==> diagonal(x) == diagonal(y),
{
    reveal(hashed2);
    let (a, b) = (diagonal(x), diagonal(y));
    let s = seed.wrapping_mul(0x9e37_79b1);
    assert(a ^ s == b ^ s <==> a == b) by (bit_vector);
    if hashed2(x, x, seed) == hashed2(y, y, seed) {
        lemma_mix_injective(folded2(x, x, seed), folded2(y, y, seed));
    }
}

proof fn lemma_i32_as_u32_injective(x: i32, y: i32)
    requires
        x as u32 == y as u32,
    ensures
        x == y,
{
    assert(x == y) by (bit_vector)
        requires
            x as u32 == y as u32,
    ;
}

} // verus!
