//! What a picture shows of samples: the byte of each, and where it stands
//! when several tiles share an image.

use vstd::arithmetic::div_mod::*;
use vstd::arithmetic::power2::*;
use vstd::prelude::*;

use crate::ieee;
use crate::ieee::F32;
use crate::material::Tile;
use crate::numbers;
use crate::png;
use crate::seam::weight;
use crate::sheet;
use crate::smoothness::distance;

verus! {

/// Two roundings and a floor, `p` to the last of 255 steps and `k` to the
/// last digit of the first product, move a number by little over a half.
proof fn lemma_two_roundings(
    n: int,
    k: int,
    scaled: int,
    half: int,
    p: int,
    k2: int,
    sum: int,
    unit: int,
    whole: int,
)
    requires
        k > 0,
        p == 2 * half,
        p >= 0x1_0000,
        0 < k2 <= 4,
        unit * k2 == p,
        2 * n - k <= 2 * (scaled * k) <= 2 * n + k,
        2 * (scaled + half) - k2 <= 2 * (sum * k2) <= 2 * (scaled + half) + k2,
        whole * unit <= sum < (whole + 1) * unit,
    ensures
        distance(whole * (p * k) - n) * 0x2_0000 <= 0x1_0005 * (p * k),
        2 * (whole * (p * k)) <= 2 * n + (p + 5) * k,
{
    assert(whole * p <= sum * k2 && sum * k2 < (whole + 1) * p) by (nonlinear_arith)
        requires
            unit * k2 == p,
            k2 > 0,
            whole * unit <= sum,
            sum < (whole + 1) * unit,
    ;
    assert((whole + 1) * p == whole * p + p) by (nonlinear_arith);
    let y = whole * p;
    assert(2 * y <= 2 * scaled + p + 4 && 2 * y >= 2 * scaled - p - 4);
    assert(2 * (y * k) <= 2 * (scaled * k) + (p + 4) * k && 2 * (y * k) >= 2 * (scaled * k) - (p
        + 4) * k) by (nonlinear_arith)
        requires
            2 * y <= 2 * scaled + p + 4,
            2 * y >= 2 * scaled - p - 4,
            k > 0,
    ;
    let z = p * k;
    assert((p + 4) * k == z + 4 * k && (p + 5) * k == z + 5 * k) by (nonlinear_arith)
        requires
            z == p * k,
    ;
    assert(y * k == whole * z) by (nonlinear_arith)
        requires
            y == whole * p,
            z == p * k,
    ;
    assert(0x1_0000 * k <= z) by (nonlinear_arith)
        requires
            p >= 0x1_0000,
            k > 0,
            z == p * k,
    ;
}

/// The byte of a number from 2^-10 up to one.
#[verifier::rlimit(40)]
proof fn lemma_quantised_steps(v: F32)
    requires
        !v.nan(),
        !v.neg(),
        v.bits < 0x3f80_0000,
        v.exp() >= -33,
    ensures
        distance(png::quantised(v) * pow2(149) - 255 * weight(v)) * 0x2_0000 <= 0x1_0005 * pow2(
            149,
        ),
{
    lemma2_to64();
    let sig = v.sig();
    let n = 255 * sig;
    assert(0x80_0000 <= sig < 0x100_0000 && v.exp() <= -24);
    let len = if n < 0x8000_0000 {
        31nat
    } else {
        32nat
    };
    ieee::lemma_bit_length_unique(n, len);
    let k = (len - 24) as nat;
    lemma_pow2_pos(k);
    ieee::lemma_nearest_even(n, pow2(k));
    ieee::lemma_significand(n, 24);
    let scaled = ieee::significand(n, 24);
    let e = len + v.exp() - 24;
    let top = (-1 - e) as nat;
    let half = pow2(top);
    lemma_pow2_unfold(top + 1);
    let p = pow2(top + 1);
    if top > 15 {
        lemma_pow2_strictly_increases(15, top);
    }
    if top < 25 {
        lemma_pow2_strictly_increases(top, 25);
    }
    let raised = scaled + half;
    ieee::lemma_bit_length(raised);
    ieee::lemma_bit_length_below(raised, 26);
    let len2 = ieee::bit_length(raised);
    if len2 < 24 {
        if len2 < 23 {
            lemma_pow2_strictly_increases(len2, 23);
        }
        assert(false);
    }
    let c = (len2 - 24) as nat;
    lemma_pow2_pos(c);
    let sum = ieee::significand(raised, 24);
    if c == 0 {
        assert(raised * pow2(0) == raised) by (nonlinear_arith)
            requires
                pow2(0) == 1,
        ;
        assert(sum * pow2(c) == raised) by (nonlinear_arith)
            requires
                sum == raised,
                pow2(c) == 1,
        ;
    } else {
        ieee::lemma_nearest_even(raised, pow2(c));
    }
    assert(c == 0 || c == 1 || c == 2);
    let last = (24 - len2 - e) as nat;
    let unit = pow2(last);
    lemma_pow2_pos(last);
    lemma_pow2_adds(last, c);
    let whole = ieee::floor_scaled(sum, len2 + e - 24);
    assert(whole == sum / unit);
    lemma_fundamental_div_mod(sum as int, unit as int);
    lemma_mod_bound(sum as int, unit as int);
    assert(whole * unit <= sum < (whole + 1) * unit) by (nonlinear_arith)
        requires
            sum == unit * whole + sum % unit,
            0 <= sum % unit < unit,
    ;
    lemma_two_roundings(
        n as int,
        pow2(k) as int,
        scaled as int,
        half as int,
        p as int,
        pow2(c) as int,
        sum as int,
        unit as int,
        whole as int,
    );
    let x = (v.exp() + 149) as nat;
    lemma_pow2_adds(top + 1, k);
    lemma_pow2_adds(top + 1 + k, x);
    lemma_pow2_pos(x);
    lemma_bytes_of_steps(
        n as int,
        sig as int,
        (p * pow2(k)) as int,
        pow2(k) as int,
        p as int,
        pow2(x) as int,
        whole as int,
    );
}

/// The same in units of 2^-149.
proof fn lemma_bytes_of_steps(n: int, sig: int, z: int, k: int, p: int, x: int, whole: int)
    requires
        n == 255 * sig,
        0 <= sig < z,
        k > 0,
        p >= 0x1_0000,
        z == p * k,
        x > 0,
        distance(whole * z - n) * 0x2_0000 <= 0x1_0005 * z,
        2 * (whole * z) <= 2 * n + (p + 5) * k,
    ensures
        whole <= 255,
        distance(whole * (z * x) - 255 * (sig * x)) * 0x2_0000 <= 0x1_0005 * (z * x),
{
    if whole >= 256 {
        assert((p + 5) * k < 2 * z) by (nonlinear_arith)
            requires
                p >= 0x1_0000,
                z == p * k,
                k > 0,
        ;
        assert(256 * z <= whole * z) by (nonlinear_arith)
            requires
                whole >= 256,
                z >= 0,
        ;
        assert(false);
    }
    let d = whole * z - n;
    assert(whole * (z * x) - 255 * (sig * x) == d * x) by (nonlinear_arith)
        requires
            d == whole * z - n,
            n == 255 * sig,
    ;
    crate::seam::lemma_distance_times(d, x);
    assert((distance(d) * x) * 0x2_0000 <= 0x1_0005 * (z * x)) by (nonlinear_arith)
        requires
            distance(d) * 0x2_0000 <= 0x1_0005 * z,
            x > 0,
    ;
}

/// The byte of a sample is 255 times it, to the nearest whole number, up to
/// the rounding of 24 digits: a sample of one or more is white, one of zero or
/// less is black, and so is what is not a number.
pub proof fn lemma_byte_is_nearest(v: F32)
    ensures
        ({
            let (q, w, unit) = (png::quantised(v), weight(v), pow2(149) as int);
            &&& 0 <= q <= 255
            &&& v.nan() || w <= 0 ==> q == 0
            &&& !v.nan() && w >= unit ==> q == 255
            &&& !v.nan() && 0 <= w <= unit ==> distance(q * unit - 255 * w) * 0x2_0000 <= 0x1_0005
                * unit
        }),
{
    let (q, w, unit) = (png::quantised(v), weight(v), pow2(149) as int);
    let one = F32 { bits: 0x3f80_0000 };
    lemma2_to64();
    lemma_pow2_pos(149);
    lemma_pow2_adds(23, 126);
    assert(one.sig() == 0x80_0000 && one.exp() == -23);
    assert(weight(one) == unit);
    let x = pow2((v.exp() + 149) as nat) as int;
    lemma_pow2_pos((v.exp() + 149) as nat);
    assert(v.sig() * x >= 0 && (v.sig() == 0 ==> v.sig() * x == 0)) by (nonlinear_arith)
        requires
            x > 0,
    ;
    if !v.nan() && !v.neg() {
        if v.bits > 0x3f80_0000 {
            numbers::lemma_magnitudes(one, v);
        }
        if v.bits < 0x3f80_0000 {
            numbers::lemma_magnitudes(v, one);
            if v.exp() < -33 {
                png::lemma_quantise_tiny(v);
                lemma_tiny(v.sig(), (v.exp() + 149) as nat);
            } else {
                lemma_quantised_steps(v);
            }
        }
    }
    assert(q == 0 ==> q * unit == 0) by (nonlinear_arith);
    assert(q == 255 ==> q * unit == 255 * unit) by (nonlinear_arith);
    if !v.nan() && !v.neg() && w == 0 {
        let zero = F32 { bits: 0 };
        if v.bits > 0 {
            assert(zero.sig() * pow2((zero.exp() + 149) as nat) == 0) by (nonlinear_arith)
                requires
                    zero.sig() == 0,
            ;
            numbers::lemma_magnitudes(zero, v);
        }
        assert(v.bits == 0);
        png::lemma_quantise_tiny(v);
    }
}

/// What is below 2^-10 is nearest to zero.
proof fn lemma_tiny(sig: nat, x: nat)
    requires
        sig < 0x100_0000,
        x < 116,
    ensures
        255 * (sig * pow2(x)) * 0x2_0000 <= 0x1_0000 * pow2(149),
{
    lemma2_to64();
    lemma_pow2_adds(24, 116);
    lemma_pow2_adds(9, 140);
    lemma_pow2_strictly_increases(x, 116);
    let w = sig * pow2(x);
    assert(w <= pow2(140)) by (nonlinear_arith)
        requires
            w == sig * pow2(x),
            sig < 0x100_0000,
            pow2(x) < pow2(116),
            pow2(140) == 0x100_0000 * pow2(116),
    ;
}

/// A picture of several tiles shows each tile whole: the pixel at column `j`
/// and row `l` of the tile in column `i` and row `k` stands where `i` tiles
/// and gaps lie to its left and `k` above it. What lies between is white.
pub proof fn lemma_sheet_shows_tiles(
    tiles: Seq<Tile>,
    columns: int,
    gap: int,
    i: int,
    k: int,
    j: int,
    l: int,
)
    requires
        sheet::alike(tiles, columns),
        0 <= gap,
        0 <= i < columns,
        0 <= k,
        k * columns + i < tiles.len(),
        0 <= j < tiles[0].size + gap,
        0 <= l < tiles[0].size + gap,
    ensures
        ({
            let size = tiles[0].size as int;
            let pitch = size + gap;
            let shown = sheet::sheet_pixel(tiles, columns, gap, i * pitch + j, k * pitch + l);
            let tile = tiles[k * columns + i];
            &&& j < size && l < size ==> shown == png::quantised(tile.data@[l * size + j])
            &&& j >= size || l >= size ==> shown == 255
        }),
{
    let pitch = tiles[0].size + gap;
    let (x, y) = (i * pitch + j, k * pitch + l);
    lemma_fundamental_div_mod_converse(x, pitch, i, j);
    lemma_fundamental_div_mod_converse(y, pitch, k, l);
    let size = tiles[0].size as int;
    lemma_byte_is_nearest(tiles[k * columns + i].data@[l * size + j]);
}

/// A picture ends where its last tile does.
pub proof fn lemma_sheet_ends(n: int, size: int, gap: int)
    ensures
        sheet::extent(n, size, gap) == (n - 1) * (size + gap) + size,
{
    assert(n * size + (n - 1) * gap == (n - 1) * (size + gap) + size) by (nonlinear_arith);
}

/// Every place before the end of a picture belongs to one of its tiles or to
/// the gap after one.
pub proof fn lemma_sheet_place(n: int, size: int, gap: int, x: int) -> (at: (int, int))
    requires
        n >= 1,
        size >= 0,
        gap >= 0,
        0 <= x < sheet::extent(n, size, gap),
    ensures
        0 <= at.0 < n,
        0 <= at.1 < size + gap,
        x == at.0 * (size + gap) + at.1,
{
    sheet::lemma_tile_along(x, n, size, gap);
    let (i, j) = (x / (size + gap), x % (size + gap));
    lemma_fundamental_div_mod(x, size + gap);
    assert((size + gap) * i == i * (size + gap)) by (nonlinear_arith);
    (i, j)
}

} // verus!
