//! Where tiles meet, whatever the frequency and the size.
//!
//! A tile's origin is a rounded product, and its pixels are a rounded
//! quotient apart, so one tile's last pixel and the next one's first need
//! not be exactly a pixel apart. They nearly are: this module bounds what is
//! missing in steps of 2^-27, and with it the change of the picture across
//! the join.
//!
//! Bounds are stated over whole numbers: a frequency of `sig * 2^exp` is
//! [`weight`] over 2^122 steps.

use vstd::arithmetic::div_mod::*;
use vstd::arithmetic::power2::*;
use vstd::prelude::*;

use crate::exact;
use crate::exact::Lat;
use crate::fixed::ONE;
use crate::grid;
use crate::ieee;
use crate::ieee::{F32, F64};
use crate::lattice;
use crate::material;
use crate::material::Material;
use crate::math;
use crate::smoothness;

verus! {

/// A binary32 number, in units of 2^-149.
pub open spec fn weight(f: F32) -> int {
    let w = (f.sig() * pow2((f.exp() + 149) as nat)) as int;
    if f.neg() {
        -w
    } else {
        w
    }
}

/// A binary64 number, in units of 2^-1074.
pub open spec fn weight64(v: F64) -> int {
    let w = (v.sig() * pow2((v.exp() + 1074) as nat)) as int;
    if v.neg() {
        -w
    } else {
        w
    }
}

/// Rounding to `p` digits moves a number by at most its 2^p-th part.
pub proof fn lemma_significand_close(n: nat, p: nat)
    requires
        n > 0,
        p >= 1,
        ieee::bit_length(n) > p,
    ensures
        ({
            let unit = pow2((ieee::bit_length(n) - p) as nat);
            smoothness::distance(ieee::significand(n, p) * unit - n) * pow2(p) <= n
        }),
{
    let len = ieee::bit_length(n);
    let k = (len - p) as nat;
    let unit = pow2(k);
    let s = ieee::significand(n, p);
    ieee::lemma_bit_length(n);
    lemma_pow2_pos(k);
    ieee::lemma_nearest_even(n, unit);
    lemma_pow2_adds(k, p);
    lemma_pow2_unfold(len);
    let e = smoothness::distance(s * unit - n);
    // 2e <= unit, and unit * 2^p = 2^len <= 2n
    assert(2 * e <= unit);
    lemma_pow2_pos(p);
    assert(e * pow2(p) <= n) by (nonlinear_arith)
        requires
            2 * e <= unit,
            unit * pow2(p) <= 2 * n,
            pow2(p) > 0,
    ;
}

/// The nearest binary64 number is within the 2^53rd part.
proof fn lemma_round_close(neg: bool, n: nat, e: int)
    requires
        n > 0,
        -1021 <= e,
        1 <= ieee::bit_length(n) + e + 1022 <= 2045,
    ensures
        ({
            let v = F64 { bits: ieee::nearest_f64(neg, n, e) as u64 };
            let exact = n * pow2((e + 1074) as nat);
            &&& !v.nan()
            &&& v.neg() == neg
            &&& v.exp() >= -1074
            &&& smoothness::distance(v.sig() * pow2((v.exp() + 1074) as nat) - exact) * pow2(53)
                <= exact
        }),
{
    let v = F64 { bits: ieee::nearest_f64(neg, n, e) as u64 };
    let len = ieee::bit_length(n);
    let s = ieee::significand(n, 53);
    ieee::lemma_nearest_f64_parts(neg, n, e);
    ieee::lemma_bit_length(n);
    let x = (e + 1074) as nat;
    let y = (len + e - 53 + 1074) as nat;
    let exact = n * pow2(x);
    assert(v.sig() * pow2((v.exp() + 1074) as nat) == s * pow2(y)) by {
        if s == 0x20_0000_0000_0000 {
            lemma_pow2_unfold((y + 1) as nat);
            assert(0x10_0000_0000_0000 * pow2(y + 1) == s * pow2(y)) by (nonlinear_arith)
                requires
                    pow2(y + 1) == 2 * pow2(y),
                    s == 0x20_0000_0000_0000,
            ;
        }
    }
    if len <= 53 {
        let c = (53 - len) as nat;
        lemma_pow2_adds(c, y);
        assert(s * pow2(y) == exact) by (nonlinear_arith)
            requires
                s == n * pow2(c),
                pow2(x) == pow2(c) * pow2(y),
                exact == n * pow2(x),
        ;
        assert(0 * pow2(53) == 0) by (nonlinear_arith);
        assert(exact >= 0);
    } else {
        let c = (len - 53) as nat;
        lemma_significand_close(n, 53);
        lemma_pow2_adds(c, x);
        lemma_pow2_pos(x);
        let d = smoothness::distance(s * pow2(c) - n);
        assert(s * pow2(y) - exact == (s * pow2(c) - n) * pow2(x)) by (nonlinear_arith)
            requires
                pow2(y) == pow2(c) * pow2(x),
                exact == n * pow2(x),
        ;
        lemma_distance_times(s * pow2(c) - n, pow2(x) as int);
        assert((d * pow2(x)) * pow2(53) <= exact) by (nonlinear_arith)
            requires
                d * pow2(53) <= n,
                exact == n * pow2(x),
                pow2(x) > 0,
        ;
    }
}

/// A positive factor can be taken out of a distance.
pub proof fn lemma_distance_times(a: int, u: int)
    requires
        u > 0,
    ensures
        smoothness::distance(a * u) == smoothness::distance(a) * u,
{
    assert(a < 0 ==> a * u < 0) by (nonlinear_arith)
        requires
            u > 0,
    ;
    assert(a >= 0 ==> a * u >= 0) by (nonlinear_arith)
        requires
            u > 0,
    ;
    assert((-a) * u == -(a * u)) by (nonlinear_arith);
}

/// The offset above the floor is within a step of the fraction it stands
/// for.
proof fn lemma_offset_close(n: nat, d: nat)
    requires
        d >= 1,
        n < pow2(d),
    ensures
        smoothness::distance(
            lattice::offset_steps(n, -(d as int)) * pow2(d) - n * pow2(27),
        ) <= pow2(d),
{
    let r = lattice::offset_steps(n, -(d as int));
    lemma_pow2_pos(d);
    lemma2_to64();
    lemma2_to64_rest();
    if n == 0 {
        assert(0 * pow2(d) == 0 && 0 * pow2(27) == 0) by (nonlinear_arith);
    } else {
        let len = ieee::bit_length(n);
        ieee::lemma_bit_length(n);
        ieee::lemma_bit_length_below(n, d);
        let s = ieee::significand(n, 53);
        let below = (d + 26 - len) as nat;
        let unit = pow2(below);
        lemma_pow2_pos(below);
        lemma_fundamental_div_mod(s as int, unit as int);
        lemma_mod_bound(s as int, unit as int);
        assert(r == s / unit);
        // r * 2^below <= s < (r + 1) * 2^below
        assert(r * unit <= s < (r + 1) * unit) by (nonlinear_arith)
            requires
                s == unit * r + s % unit,
                0 <= s % unit < unit,
        ;
        if len <= 53 {
            let c = (53 - len) as nat;
            // 2^below * 2^27 = 2^c * 2^d
            lemma_pow2_adds(below, 27);
            lemma_pow2_adds(c, d);
            lemma_pow2_pos(c);
            assert(r * pow2(d) <= n * pow2(27) < (r + 1) * pow2(d)) by (nonlinear_arith)
                requires
                    r * unit <= s,
                    s < (r + 1) * unit,
                    s == n * pow2(c),
                    unit * pow2(27) == pow2(c) * pow2(d),
                    pow2(c) > 0,
                    pow2(27) > 0,
            ;
            assert((r + 1) * pow2(d) == r * pow2(d) + pow2(d)) by (nonlinear_arith);
        } else {
            let c = (len - 53) as nat;
            lemma_significand_close(n, 53);
            // 2^c * 2^below * 2^27 = 2^d, so a unit of the significand is
            // less than a step.
            lemma_pow2_adds(c, below);
            lemma_pow2_adds(c + below, 27);
            lemma_pow2_pos(c);
            let w = pow2(c);
            let wide = pow2(c + below);
            assert(wide * pow2(27) == pow2(d));
            let (lo, hi) = ((r * unit) * w, ((r + 1) * unit) * w);
            assert(lo <= s * w <= hi - w) by (nonlinear_arith)
                requires
                    r * unit <= s,
                    s + 1 <= (r + 1) * unit,
                    w > 0,
                    lo == (r * unit) * w,
                    hi == ((r + 1) * unit) * w,
            ;
            assert(lo == r * wide && hi == r * wide + wide) by (nonlinear_arith)
                requires
                    lo == (r * unit) * w,
                    hi == ((r + 1) * unit) * w,
                    wide == w * unit,
            ;
            assert(wide >= w) by (nonlinear_arith)
                requires
                    wide == w * unit,
                    unit >= 1,
                    w > 0,
            ;
            lemma_rounded_floor(n, s as int, w as int, r as int, wide as int, d);
        }
    }
}

/// A floor of a rounded number, where the rounding ends on the wide unit at
/// most.
proof fn lemma_rounded_floor(n: nat, s: int, w: int, r: int, wide: int, d: nat)
    requires
        ieee::bit_length(n) > 53,
        w == pow2((ieee::bit_length(n) - 53) as nat),
        s == ieee::significand(n, 53),
        wide >= w,
        w > 0,
        r * wide <= s * w <= r * wide + wide - w,
        wide * pow2(27) == pow2(d),
    ensures
        smoothness::distance(r * pow2(d) - n * pow2(27)) <= pow2(d),
{
    let k = (ieee::bit_length(n) - 53) as nat;
    lemma_pow2_pos(k);
    ieee::lemma_nearest_even(n, pow2(k));
    // |s w - n| <= w / 2 <= wide / 2
    assert(r * wide - wide <= n <= r * wide + wide);
    lemma_pow2_pos(27);
    let t = pow2(27) as int;
    assert(r * pow2(d) == (r * wide) * t) by (nonlinear_arith)
        requires
            wide * t == pow2(d),
    ;
    assert(n * t <= (r * wide + wide) * t && (r * wide - wide) * t <= n * t) by (nonlinear_arith)
        requires
            r * wide - wide <= n <= r * wide + wide,
            t > 0,
    ;
    assert((r * wide + wide) * t == (r * wide) * t + wide * t && (r * wide - wide) * t == (r
        * wide) * t - wide * t) by (nonlinear_arith);
}

/// A coordinate is within a step of the number it was split from.
pub proof fn lemma_split_close(v: F64) -> (p: int)
    requires
        !v.nan(),
        smoothness::distance(weight64(v)) < 0x8000_0000_0000_0000 * pow2(1074),
    ensures
        lattice::split_of(v) == Lat::at(p),
        smoothness::distance(p * pow2(1074) - weight64(v) * pow2(27)) <= pow2(1074),
{
    let (sig, exp) = (v.sig(), v.exp());
    let whole = lattice::whole_part(v.neg(), sig, exp);
    let off = lattice::offset_steps(lattice::part_above(v.neg(), sig, exp), exp) as int;
    let p = math::saturate_i64(whole) * ONE + off;
    let full = pow2(1074) as int;
    lemma2_to64();
    lemma_pow2_pos(1074);
    if exp >= 0 {
        let m = (sig * pow2(exp as nat)) as int;
        lemma_pow2_adds(exp as nat, 1074);
        assert(sig * pow2((exp + 1074) as nat) == m * full) by (nonlinear_arith)
            requires
                m == sig * pow2(exp as nat),
                pow2((exp + 1074) as nat) == pow2(exp as nat) * full,
        ;
        assert(m < 0x8000_0000_0000_0000) by (nonlinear_arith)
            requires
                m * full < 0x8000_0000_0000_0000 * full,
                full > 0,
        ;
        assert(off == 0);
        assert((m * ONE) * full == (m * full) * 0x800_0000) by (nonlinear_arith)
            requires
                ONE == 0x800_0000,
        ;
        assert(((-m) * ONE) * full == -((m * ONE) * full) && (-(m * full)) * 0x800_0000 == -((m
            * full) * 0x800_0000)) by (nonlinear_arith);
    } else {
        let d = (-exp) as nat;
        let unit = pow2(d) as int;
        lemma_pow2_pos(d);
        let x = (exp + 1074) as nat;
        lemma_pow2_adds(x, d);
        lemma_pow2_pos(x);
        let (q, r) = (sig as int / unit, sig as int % unit);
        lemma_fundamental_div_mod(sig as int, unit);
        lemma_mod_bound(sig as int, unit);
        lemma_div_pos_is_pos(sig as int, unit);
        lemma_div_is_ordered_by_denominator(sig as int, 1, unit);
        let above = lattice::part_above(v.neg(), sig, exp);
        lemma_offset_close(above, d);
        let t = 0x800_0000int;
        let value = if v.neg() {
            -(sig as int)
        } else {
            sig as int
        };
        assert(smoothness::distance(p * unit - value * t) <= unit) by {
            assert(value == if v.neg() {
                -(unit * q + r)
            } else {
                unit * q + r
            });
            assert(p * unit - value * t == off * unit - above * t) by (nonlinear_arith)
                requires
                    p == whole * t + off,
                    (value == unit * q + r && whole == q && above == r) || (value == -(unit * q + r)
                        && ((whole == -q && above == 0 && r == 0) || (whole == -q - 1 && above
                        == unit - r))),
            ;
        }
        assert((-(sig as int)) * pow2(x) == -(sig * pow2(x))) by (nonlinear_arith);
        assert(p * full - weight64(v) * t == (p * unit - value * t) * pow2(x)) by (nonlinear_arith)
            requires
                full == pow2(x) * unit,
                weight64(v) == value * pow2(x),
        ;
        lemma_distance_times(p * unit - value * t, pow2(x) as int);
        assert(smoothness::distance(p * unit - value * t) * pow2(x) <= full) by (nonlinear_arith)
            requires
                smoothness::distance(p * unit - value * t) <= unit,
                full == pow2(x) * unit,
                pow2(x) > 0,
        ;
    }
    p
}

/// The product of a tile index and a frequency is within three parts in 2^53.
proof fn lemma_scaled_close(x: i64, f: F32)
    requires
        f.biased() != 255,
    ensures
        ({
            let v = ieee::scaled(x, f);
            let exact = (x * weight(f)) * pow2(1074);
            &&& !v.nan()
            &&& smoothness::distance(weight64(v) * pow2(149) - exact) * pow2(53) <= 3
                * smoothness::distance(exact)
        }),
{
    let n = ieee::magnitude(x as int);
    let v = ieee::scaled(x, f);
    let a = F64 { bits: ieee::nearest_f64(x < 0, n, 0) as u64 };
    let product = a.sig() * f.sig();
    let s = (f.sig() * pow2((f.exp() + 149) as nat)) as int;
    lemma2_to64();
    lemma2_to64_rest();
    if x == 0 || f.sig() == 0 {
        assert(product == 0) by (nonlinear_arith)
            requires
                product == a.sig() * f.sig(),
                a.sig() == 0 || f.sig() == 0,
        ;
        assert(v.sig() == 0);
        assert(0 * pow2((v.exp() + 1074) as nat) == 0) by (nonlinear_arith);
        assert(0 * pow2((f.exp() + 149) as nat) == 0) by (nonlinear_arith);
        let w = weight(f);
        assert(x * w == 0) by (nonlinear_arith)
            requires
                x == 0 || w == 0,
        ;
        assert(0 * pow2(149) == 0 && 0 * pow2(1074) == 0 && 0 * pow2(53) == 0)
            by (nonlinear_arith);
        assert(weight64(v) == 0);
    } else {
        ieee::lemma_bit_length_below(n, 64);
        ieee::lemma_bit_length(n);
        lemma_round_close(x < 0, n, 0);
        ieee::lemma_nearest_f64_parts(x < 0, n, 0);
        assert(product > 0) by (nonlinear_arith)
            requires
                product == a.sig() * f.sig(),
                a.sig() > 0,
                f.sig() > 0,
        ;
        assert(product < 0x20_0000_0000_0000 * 0x100_0000) by (nonlinear_arith)
            requires
                product == a.sig() * f.sig(),
                a.sig() < 0x20_0000_0000_0000,
                f.sig() < 0x100_0000,
        ;
        lemma_pow2_adds(53, 24);
        assert(0x20_0000_0000_0000int * 0x100_0000int == pow2(53) * pow2(24)) by (nonlinear_arith)
            requires
                pow2(53) == 0x20_0000_0000_0000,
                pow2(24) == 0x100_0000,
        ;
        ieee::lemma_bit_length_below(product, 77);
        ieee::lemma_bit_length(product);
        assert(-52 <= a.exp() <= 12);
        let e = a.exp() + f.exp();
        lemma_round_close(a.neg() != f.neg(), product, e);
        let (ea, ef, ep) = (
            (a.exp() + 1074) as nat,
            (f.exp() + 149) as nat,
            (e + 1074) as nat,
        );
        let big_a = (a.sig() * pow2(ea)) as int;
        let big_n = (product * pow2(ep)) as int;
        let big_v = (v.sig() * pow2((v.exp() + 1074) as nat)) as int;
        lemma_pow2_adds(ea, ef);
        lemma_pow2_adds(ep, 149);
        assert(big_n * pow2(149) == big_a * s) by (nonlinear_arith)
            requires
                big_n == product * pow2(ep),
                big_a == a.sig() * pow2(ea),
                s == f.sig() * pow2(ef),
                product == a.sig() * f.sig(),
                pow2(ep + 149) == pow2(ep) * pow2(149),
                pow2(ea + ef) == pow2(ea) * pow2(ef),
                ep + 149 == ea + ef,
        ;
        lemma_pow2_pos(ef);
        lemma_pow2_pos(149);
        assert(s > 0) by (nonlinear_arith)
            requires
                s == f.sig() * pow2(ef),
                f.sig() > 0,
                pow2(ef) > 0,
        ;
        lemma_two_roundings(big_a, (n * pow2(1074)) as int, s, big_n, big_v);
        lemma_pow2_pos(1074);
        let y = (n * pow2(1074)) * s;
        let exact = (x * weight(f)) * pow2(1074);
        assert(exact == if (x < 0) != f.neg() { -y } else { y }) by (nonlinear_arith)
            requires
                n == if x < 0 { -x } else { x as int },
                weight(f) == if f.neg() { -s } else { s },
                y == (n * pow2(1074)) * s,
                exact == (x * weight(f)) * pow2(1074),
        ;
        assert(y > 0) by (nonlinear_arith)
            requires
                y == (n * pow2(1074)) * s,
                n > 0,
                s > 0,
                pow2(1074) > 0,
        ;
        assert((-big_v) * pow2(149) == -(big_v * pow2(149))) by (nonlinear_arith);
    }
}

/// A rounded factor and a rounded product are together within three parts.
proof fn lemma_two_roundings(a: int, x: int, s: int, n: int, v: int)
    requires
        x >= 0,
        s > 0,
        smoothness::distance(a - x) * pow2(53) <= x,
        smoothness::distance(v - n) * pow2(53) <= n,
        n * pow2(149) == a * s,
    ensures
        smoothness::distance(v * pow2(149) - x * s) * pow2(53) <= 3 * (x * s),
{
    let (u, t) = (pow2(53) as int, pow2(149) as int);
    lemma_pow2_pos(53);
    lemma_pow2_pos(149);
    let y = x * s;
    // The factor.
    assert(a * s - y == (a - x) * s) by (nonlinear_arith)
        requires
            y == x * s,
    ;
    lemma_distance_times(a - x, s);
    let e1 = smoothness::distance(a * s - y);
    assert(e1 * u <= y) by (nonlinear_arith)
        requires
            e1 == smoothness::distance(a - x) * s,
            smoothness::distance(a - x) * u <= x,
            s > 0,
            y == x * s,
    ;
    assert(e1 <= y) by (nonlinear_arith)
        requires
            e1 * u <= y,
            u >= 1,
            e1 >= 0,
    ;
    // The product, at most twice the exact one.
    assert(v * t - n * t == (v - n) * t) by (nonlinear_arith);
    lemma_distance_times(v - n, t);
    let e2 = smoothness::distance(v * t - n * t);
    assert(e2 * u <= n * t) by (nonlinear_arith)
        requires
            e2 == smoothness::distance(v - n) * t,
            smoothness::distance(v - n) * u <= n,
            t > 0,
    ;
    assert(n * t <= 2 * y);
    let e = smoothness::distance(v * t - y);
    assert(e <= e1 + e2);
    assert(e * u <= 3 * y) by (nonlinear_arith)
        requires
            e <= e1 + e2,
            e1 * u <= y,
            e2 * u <= 2 * y,
            u >= 1,
    ;
}

/// A tile's origin is where it should be, up to a step and three parts in
/// 2^53 of its distance from the origin of the plane.
pub proof fn lemma_origin_close(m: Material, x: i64) -> (p: int)
    requires
        m.frequency.biased() != 255,
        smoothness::distance(x * weight(m.frequency)) <= pow2(211),
    ensures
        m.tile_origin(x) == Lat::at(p),
        smoothness::distance(p * pow2(122) - x * weight(m.frequency)) * pow2(53) <= 3
            * smoothness::distance(x * weight(m.frequency)) + pow2(175),
{
    let f = m.frequency;
    let v = ieee::scaled(x, f);
    let ideal = x * weight(f);
    let full = pow2(1074) as int;
    let (u, t) = (pow2(53) as int, pow2(149) as int);
    lemma_scaled_close(x, f);
    lemma2_to64();
    lemma2_to64_rest();
    lemma_pow2_pos(1074);
    lemma_pow2_pos(149);
    lemma_pow2_pos(53);
    lemma_distance_times(ideal, full);
    let w = weight64(v);
    let e = smoothness::distance(w * t - ideal * full);
    let y = smoothness::distance(ideal);
    assert(e * u <= 3 * (y * full));
    // |v| < 2^63
    assert(smoothness::distance(w) < 0x8000_0000_0000_0000 * full) by {
        lemma_distance_times(w, t);
        lemma_origin_strict(smoothness::distance(w), t, e, y, full, u);
    }
    let p = lemma_split_close(v);
    lemma_pow2_adds(27, 122);
    lemma_pow2_adds(53, 122);
    let h = pow2(122) as int;
    lemma_pow2_pos(122);
    // (p h - ideal) full = (p full - w 2^27) h + (w t - ideal full)
    let c = p * full - w * pow2(27);
    let k = pow2(27) as int;
    assert((p * h - ideal) * full == (p * full) * h - ideal * full) by (nonlinear_arith);
    assert((p * full - w * k) * h == (p * full) * h - (w * k) * h) by (nonlinear_arith);
    assert((w * k) * h == w * t) by (nonlinear_arith)
        requires
            t == k * h,
    ;
    lemma_distance_times(c, h);
    lemma_distance_times(p * h - ideal, full);
    let g = smoothness::distance(p * h - ideal);
    assert(smoothness::distance(c) * h <= full * h) by (nonlinear_arith)
        requires
            smoothness::distance(c) <= full,
            h > 0,
    ;
    assert(g * full <= full * h + e);
    assert(g * u <= 3 * y + h * u) by (nonlinear_arith)
        requires
            g * full <= full * h + e,
            e * u <= 3 * (y * full),
            full > 0,
            u > 0,
    ;
    assert(h * u == u * h) by (nonlinear_arith);
    p
}

/// A product that is close to one of at most 2^62 cells is below 2^63.
proof fn lemma_origin_strict(dw: int, t: int, e: int, y: int, full: int, u: int)
    requires
        t == pow2(149),
        full > 0,
        u >= 4,
        y >= 0,
        e >= 0,
        e * u <= 3 * (y * full),
        dw * t <= y * full + e,
        y <= pow2(211),
    ensures
        dw < 0x8000_0000_0000_0000 * full,
{
    lemma2_to64();
    lemma2_to64_rest();
    lemma_pow2_adds(62, 149);
    lemma_pow2_pos(149);
    assert(4 * e <= 3 * (y * full)) by (nonlinear_arith)
        requires
            e * u <= 3 * (y * full),
            u >= 4,
            e >= 0,
    ;
    assert(4 * (dw * t) <= 7 * (y * full));
    assert(y * full <= (pow2(62) * t) * full) by (nonlinear_arith)
        requires
            y <= pow2(62) * t,
            full > 0,
    ;
    assert(4 * dw <= 7 * (pow2(62) * full)) by (nonlinear_arith)
        requires
            4 * (dw * t) <= 7 * ((pow2(62) * t) * full),
            t > 0,
    ;
}

/// The magnitude that the distance between pixels has before it is brought
/// into the format, and what the pixels then span.
proof fn lemma_span_quotient(f: F32, size: u32) -> (m: int)
    requires
        !f.nan(),
        f.sig() > 0,
        0 < size < 0x100_0000,
    ensures
        m >= 0,
        exact::pixel_step(f, size) == math::saturate_i32(
            if f.neg() {
                -m
            } else {
                m
            },
        ),
        ({
            let s = f.sig() * pow2((f.exp() + 149) as nat);
            smoothness::distance((size * m) * pow2(122) - s) * pow2(24) <= s + size * pow2(146)
        }),
{
    let (a, exp) = (f.sig(), f.exp());
    lemma2_to64();
    let width = F32 { bits: ieee::nearest_f32(false, size as nat, 0) as u32 };
    let len = ieee::bit_length(size as nat);
    ieee::lemma_bit_length_below(size as nat, 24);
    ieee::lemma_bit_length(size as nat);
    ieee::lemma_nearest_f32_parts(false, size as nat, 0);
    let g = (24 - len) as nat;
    lemma_pow2_pos(g);
    lemma_pow2_adds(g, len);
    let w = size as nat * pow2(g);
    assert(w < 0x100_0000) by (nonlinear_arith)
        requires
            w == size * pow2(g),
            size < pow2(len),
            pow2(g) * pow2(len) == 0x100_0000,
            pow2(g) > 0,
    ;
    assert(width.sig() == w && width.exp() == -(g as int));
    let (q, e) = ieee::quotient(a, w, 24);
    let (k, t) = lemma_quotient_close(a, w, 24);
    let z = e + exp + g + 27;
    let m = ieee::floor_scaled(q, z) as int;
    lemma_span_scaled(a, size as nat, g, q, k, t, exp, z, m);
    m
}

/// The pixels of a tile span the frequency, up to a step for each and the
/// rounding of a binary32 quotient.
pub proof fn lemma_span_close(f: F32, size: u32)
    requires
        f.biased() != 255,
        0 < size < 0x100_0000,
        i32::MIN < exact::pixel_step(f, size) < i32::MAX,
    ensures
        smoothness::distance(
            (size * exact::pixel_step(f, size)) * pow2(122) - weight(f),
        ) * pow2(24) <= smoothness::distance(weight(f)) + size * pow2(146),
{
    let (a, x) = (f.sig(), (f.exp() + 149) as nat);
    lemma_pow2_pos(146);
    if a == 0 {
        assert(0 * pow2(x) == 0) by (nonlinear_arith);
        assert((size * 0) * pow2(122) == 0 && 0 * pow2(24) == 0) by (nonlinear_arith);
        assert(size * pow2(146) >= 0) by (nonlinear_arith);
    } else {
        let m = lemma_span_quotient(f, size);
        assert(size * (-m) == -(size * m)) by (nonlinear_arith);
        let r = size * m;
        assert((-r) * pow2(122) == -(r * pow2(122))) by (nonlinear_arith);
    }
}

/// The distance between pixels is cut at an end of the format only where the
/// frequency reaches that far, and has the sign of the frequency. A frequency
/// of zero has no distance, nor has one that is not a number, and without
/// pixels the distance is an end of the format.
pub proof fn lemma_span_cut(f: F32, size: u32)
    requires
        size < 0x100_0000,
    ensures
        ({
            let (step, w) = (exact::pixel_step(f, size), weight(f));
            &&& i32::MIN <= step <= i32::MAX
            &&& f.nan() || w == 0 ==> step == 0
            &&& step > 0 ==> w > 0
            &&& step < 0 ==> w < 0
            &&& !f.nan() && w > 0 && size == 0 ==> step == i32::MAX
            &&& !f.nan() && w < 0 && size == 0 ==> step == i32::MIN
            &&& size > 0 && (step == i32::MAX || step == i32::MIN) ==> (size * 0x7fff_ffff) * pow2(
                146,
            ) <= smoothness::distance(w) * (pow2(24) + 1) + size * pow2(146)
        }),
{
    let (step, w) = (exact::pixel_step(f, size), weight(f));
    let x = (f.exp() + 149) as nat;
    let s = (f.sig() * pow2(x)) as int;
    lemma_pow2_pos(x);
    assert(s >= 0 && (s == 0 <==> f.sig() == 0)) by (nonlinear_arith)
        requires
            s == f.sig() * pow2(x),
            pow2(x) > 0,
    ;
    if !f.nan() && f.sig() > 0 && size > 0 {
        let m = lemma_span_quotient(f, size);
        if step == i32::MAX || step == i32::MIN {
            let (u, v, y) = (pow2(24) as int, pow2(122) as int, pow2(146) as int);
            lemma_pow2_adds(122, 24);
            lemma_pow2_pos(24);
            lemma_pow2_pos(122);
            assert(m >= 0x7fff_ffff);
            let r = size * m;
            assert((size * 0x7fff_ffff) * y <= r * y) by (nonlinear_arith)
                requires
                    m >= 0x7fff_ffff,
                    r == size * m,
                    y == v * u,
                    v > 0,
                    u > 0,
            ;
            let d = smoothness::distance(r * v - s);
            assert(r * y <= s * (u + 1) + size * y) by (nonlinear_arith)
                requires
                    d * u <= s + size * y,
                    r * v - s <= d,
                    y == v * u,
                    u > 0,
            ;
        }
    }
}

/// A quotient rounded to `p` digits is within the 2^p-th part.
proof fn lemma_quotient_close(a: nat, b: nat, p: nat) -> (kt: (nat, nat))
    requires
        0 < a < 0x100_0000,
        0 < b < 0x100_0000,
        24 <= p <= 53,
    ensures
        ({
            let (q, e) = ieee::quotient(a, b, p);
            let (k, t) = kt;
            &&& e == k - t
            &&& smoothness::distance(q * (b * pow2(k)) - a * pow2(t)) * pow2(p) <= a * pow2(t)
        }),
{
    let t = p + ieee::bit_length(b);
    let num = a * pow2(t);
    let n = num / b;
    let k = (ieee::bit_length(n) - p) as nat;
    let den = b * pow2(k);
    lemma2_to64();
    ieee::lemma_bit_length_below(b, 24);
    ieee::lemma_bit_length(b);
    lemma_pow2_pos(t);
    lemma_pow2_strictly_increases(t, 102);
    lemma_pow2_adds(24, 102);
    assert(num < pow2(126)) by (nonlinear_arith)
        requires
            num == a * pow2(t),
            a < pow2(24),
            pow2(t) < pow2(102),
            pow2(126) == pow2(24) * pow2(102),
            pow2(t) > 0,
    ;
    ieee::lemma_quotient_digits(a, b, p, n, num);
    ieee::lemma_nearest_even(num, den);
    // num >= 2^(p-1) den
    ieee::lemma_bit_length(n);
    lemma_fundamental_div_mod(num as int, b as int);
    lemma_mod_bound(num as int, b as int);
    let half = pow2((p - 1) as nat);
    lemma_pow2_adds(k, (p - 1) as nat);
    lemma_pow2_unfold(p);
    assert(num >= half * den) by (nonlinear_arith)
        requires
            num >= b * n,
            n >= pow2(k) * half,
            den == b * pow2(k),
    ;
    let q = ieee::nearest_even(num, den);
    let err = smoothness::distance(q * den - num);
    assert(2 * err <= den);
    assert(err * pow2(p) <= num) by (nonlinear_arith)
        requires
            2 * err <= den,
            num >= half * den,
            pow2(p) == 2 * half,
            half >= 0,
    ;
    (k, t)
}

/// The span of `m` steps a pixel, where the steps are the floor of a rounded
/// quotient.
proof fn lemma_span_scaled(
    a: nat,
    size: nat,
    g: nat,
    q: nat,
    k: nat,
    t: nat,
    exp: int,
    z: int,
    m: int,
)
    requires
        exp >= -149,
        z == k - t + exp + g + 27,
        m == ieee::floor_scaled(q, z),
        smoothness::distance(q * ((size * pow2(g)) * pow2(k)) - a * pow2(t)) * pow2(24) <= a
            * pow2(t),
    ensures
        ({
            let s = a * pow2((exp + 149) as nat);
            smoothness::distance((size * m) * pow2(122) - s) * pow2(24) <= s + size * pow2(146)
        }),
{
    let x = (exp + 149) as nat;
    let s = (a * pow2(x)) as int;
    let full = pow2(122 + t) as int;
    lemma_pow2_adds(122, t);
    lemma_pow2_pos(t);
    lemma_pow2_pos(122 + t);
    lemma_pow2_pos(x);
    lemma_pow2_adds(122, 24);
    lemma_pow2_adds(g, k);
    lemma_pow2_adds(g + k, x);
    let whole = (q * ((size * pow2(g)) * pow2(k))) as int;
    let ideal = (a * pow2(t)) as int;
    // In units of 2^-(122 + t): what the exact quotient spans.
    let big = whole * pow2(x);
    assert(big == (q * size) * pow2(g + k + x)) by (nonlinear_arith)
        requires
            big == (q * ((size * pow2(g)) * pow2(k))) * pow2(x),
            pow2(g + k + x) == pow2(g + k) * pow2(x),
            pow2(g + k) == pow2(g) * pow2(k),
    ;
    let span = size * m;
    assert(big - size * full <= span * full <= big) by {
        if z >= 0 {
            let u = z as nat;
            lemma_pow2_adds(u, 122 + t);
            assert(span * full == big) by (nonlinear_arith)
                requires
                    span == size * m,
                    m == q * pow2(u),
                    pow2(g + k + x) == pow2(u) * full,
                    big == (q * size) * pow2(g + k + x),
            ;
            assert(size * full >= 0) by (nonlinear_arith)
                requires
                    full > 0,
                    size >= 0,
            ;
        } else {
            let u = (-z) as nat;
            lemma_pow2_pos(u);
            lemma_pow2_adds(g + k + x, u);
            lemma_fundamental_div_mod(q as int, pow2(u) as int);
            lemma_mod_bound(q as int, pow2(u) as int);
            let part = pow2(g + k + x) as int;
            assert(full == part * pow2(u));
            assert(m * pow2(u) <= q < m * pow2(u) + pow2(u)) by (nonlinear_arith)
                requires
                    q == pow2(u) * m + q % pow2(u),
                    0 <= q % pow2(u) < pow2(u),
            ;
            assert(span * full == ((m * pow2(u)) * size) * part) by (nonlinear_arith)
                requires
                    span == size * m,
                    full == part * pow2(u),
            ;
            assert(size * full == (pow2(u) * size) * part) by (nonlinear_arith)
                requires
                    full == part * pow2(u),
            ;
            lemma_pow2_pos(g + k + x);
            let mu = m * pow2(u);
            let pu = pow2(u) as int;
            assert((mu * size) * part <= (q * size) * part) by (nonlinear_arith)
                requires
                    mu <= q,
                    size >= 0,
                    part > 0,
            ;
            assert((q * size) * part <= (mu * size) * part + (pu * size) * part)
                by (nonlinear_arith)
                requires
                    q <= mu + pu,
                    size >= 0,
                    part > 0,
            ;
        }
    }
    // Against the ideal.
    assert(s * pow2(t) == ideal * pow2(x)) by (nonlinear_arith)
        requires
            s == a * pow2(x),
            ideal == a * pow2(t),
    ;
    assert(big - ideal * pow2(x) == (whole - ideal) * pow2(x)) by (nonlinear_arith)
        requires
            big == whole * pow2(x),
    ;
    lemma_distance_times(whole - ideal, pow2(x) as int);
    let d = smoothness::distance(whole - ideal);
    assert((d * pow2(x)) * pow2(24) <= ideal * pow2(x)) by (nonlinear_arith)
        requires
            d * pow2(24) <= ideal,
            pow2(x) > 0,
    ;
    let (h, v) = (pow2(122) as int, pow2(t) as int);
    let g1 = smoothness::distance(span * h - s);
    assert((span * h - s) * v == span * full - s * v) by (nonlinear_arith)
        requires
            full == h * v,
    ;
    lemma_distance_times(span * h - s, v);
    assert(g1 * v <= d * pow2(x) + size * full);
    let c = pow2(24) as int;
    lemma_pow2_pos(24);
    assert((g1 * v) * c <= s * v + (size * full) * c) by (nonlinear_arith)
        requires
            g1 * v <= d * pow2(x) + size * full,
            (d * pow2(x)) * c <= s * v,
            c > 0,
    ;
    assert(g1 * c <= s + size * pow2(146)) by (nonlinear_arith)
        requires
            (g1 * v) * c <= s * v + (size * full) * c,
            full == h * v,
            pow2(146) == h * c,
            v > 0,
    ;
}

/// How far the next tile's origin is, at most, from `size` pixels past a
/// tile's own, at a frequency of at most `steps` and at most `reach` steps
/// out: a step for each pixel, and the roundings of the pixel step and of
/// the two origins.
pub open spec fn seam_gap(size: u32, steps: int, reach: int) -> int {
    size + 3 + steps / 0x100_0000 + 6 * reach / 0x20_0000_0000_0000
}

/// Tile `x` lies at most `reach` steps out, at a frequency of at most
/// `steps`. Up to 2^62 cells out no coordinate saturates.
pub open spec fn within_reach(m: Material, x: i64, steps: int, reach: int) -> bool {
    &&& m.frequency.biased() != 255
    &&& smoothness::distance(weight(m.frequency)) <= steps * pow2(122)
    &&& smoothness::distance(x as int) * steps <= reach <= pow2(89)
}

/// Tiles meet whatever the frequency and the size: `size` pixels past a
/// tile's origin is the next tile's, up to [`seam_gap`].
pub proof fn lemma_tiles_nearly_meet(
    m: Material,
    x: i64,
    size: u32,
    steps: int,
    reach: int,
) -> (p: (int, int))
    requires
        x < i64::MAX,
        within_reach(m, x, steps, reach),
        within_reach(m, (x + 1) as i64, steps, reach),
        0 < size < 0x100_0000,
        i32::MIN < exact::pixel_step(m.frequency, size) < i32::MAX,
    ensures
        m.tile_origin(x) == Lat::at(p.0),
        m.tile_origin((x + 1) as i64) == Lat::at(p.1),
        smoothness::distance(
            p.0 + size * exact::pixel_step(m.frequency, size) - p.1,
        ) <= seam_gap(size, steps, reach),
{
    let f = m.frequency;
    let w = weight(f);
    let step = exact::pixel_step(f, size);
    lemma_reach_in_units(x as int, w, steps, reach);
    lemma_reach_in_units(x + 1, w, steps, reach);
    let p0 = lemma_origin_close(m, x);
    let p1 = lemma_origin_close(m, (x + 1) as i64);
    lemma_span_close(f, size);
    assert((x + 1) * w == x * w + w) by (nonlinear_arith);
    lemma_gap(p0, p1, size * step, x * w, (x + 1) * w, w, size as int, steps, reach);
    (p0, p1)
}

/// How far out a tile lies, in the units of the origins.
proof fn lemma_reach_in_units(x: int, w: int, steps: int, reach: int)
    requires
        smoothness::distance(w) <= steps * pow2(122),
        smoothness::distance(x) * steps <= reach <= pow2(89),
    ensures
        smoothness::distance(x * w) <= reach * pow2(122),
        reach * pow2(122) <= pow2(211),
{
    let (dx, dw) = (smoothness::distance(x), smoothness::distance(w));
    let h = pow2(122) as int;
    lemma_pow2_pos(122);
    lemma_pow2_adds(89, 122);
    assert(smoothness::distance(x * w) == dx * dw) by (nonlinear_arith)
        requires
            dx == if x < 0 { -x } else { x },
            dw == if w < 0 { -w } else { w },
            smoothness::distance(x * w) == if x * w < 0 { -(x * w) } else { x * w },
    ;
    assert(dx * dw <= (dx * steps) * h) by (nonlinear_arith)
        requires
            dx >= 0,
            dw <= steps * h,
    ;
    assert((dx * steps) * h <= reach * h) by (nonlinear_arith)
        requires
            dx * steps <= reach,
            h > 0,
    ;
    assert(reach * h <= pow2(89) * h) by (nonlinear_arith)
        requires
            reach <= pow2(89),
            h > 0,
    ;
}

/// The three errors together, in steps.
proof fn lemma_gap(
    p0: int,
    p1: int,
    span: int,
    i0: int,
    i1: int,
    w: int,
    size: int,
    steps: int,
    reach: int,
)
    requires
        i1 == i0 + w,
        smoothness::distance(i0) <= reach * pow2(122),
        smoothness::distance(i1) <= reach * pow2(122),
        smoothness::distance(w) <= steps * pow2(122),
        smoothness::distance(p0 * pow2(122) - i0) * pow2(53) <= 3 * smoothness::distance(i0)
            + pow2(175),
        smoothness::distance(p1 * pow2(122) - i1) * pow2(53) <= 3 * smoothness::distance(i1)
            + pow2(175),
        smoothness::distance(span * pow2(122) - w) * pow2(24) <= smoothness::distance(w) + size
            * pow2(146),
    ensures
        smoothness::distance(p0 + span - p1) <= size + 3 + steps / 0x100_0000 + 6 * reach
            / 0x20_0000_0000_0000,
{
    let h = pow2(122) as int;
    lemma2_to64();
    lemma2_to64_rest();
    lemma_pow2_pos(122);
    lemma_pow2_adds(53, 122);
    lemma_pow2_adds(122, 24);
    let (e0, e1, e2) = (
        smoothness::distance(p0 * h - i0),
        smoothness::distance(p1 * h - i1),
        smoothness::distance(span * h - w),
    );
    let d = smoothness::distance(p0 + span - p1);
    assert((p0 + span - p1) * h == (p0 * h - i0) + (span * h - w) - (p1 * h - i1))
        by (nonlinear_arith)
        requires
            i1 == i0 + w,
    ;
    lemma_distance_times(p0 + span - p1, h);
    assert(d * h <= e0 + e1 + e2);
    let (u, c) = (0x20_0000_0000_0000int, 0x100_0000int);
    assert(size * (h * c) == (size * h) * c) by (nonlinear_arith);
    let (rh, sh, zh) = (reach * h, steps * h, size * h);
    assert((d * h) * u <= 6 * rh + 2 * (u * h) + sh * 0x2000_0000 + zh * u);
    assert(d * u <= 6 * reach + 2 * u + steps * 0x2000_0000 + size * u) by (nonlinear_arith)
        requires
            (d * h) * u <= 6 * rh + 2 * (u * h) + sh * 0x2000_0000 + zh * u,
            rh == reach * h,
            sh == steps * h,
            zh == size * h,
            h > 0,
    ;
}

/// The picture goes on across a vertical join: pixel `n` of the tile to the
/// right shows what pixel `size + n` of the tile to the left would, up to
/// what a gap of [`seam_gap`] steps can change, wherever no product wraps
/// around.
pub proof fn lemma_vertical_seam(
    m: Material,
    x: i64,
    ly: Lat,
    size: u32,
    steps: int,
    reach: int,
    n: int,
)
    requires
        ly.wf(),
        x < i64::MAX,
        within_reach(m, x, steps, reach),
        within_reach(m, (x + 1) as i64, steps, reach),
        0 < size < 0x100_0000,
        i32::MIN < exact::pixel_step(m.frequency, size) < i32::MAX,
        ({
            let step = exact::pixel_step(m.frequency, size);
            let w = exact::prepared(m);
            let left = exact::pixel_at(m.tile_origin(x), step, size + n);
            let right = exact::pixel_at(m.tile_origin((x + 1) as i64), step, n);
            &&& w.unwrapped(left, ly)
            &&& w.unwrapped(right, ly)
            &&& smoothness::pattern_settled(w, left, ly)
            &&& smoothness::pattern_settled(w, right, ly)
        }),
    ensures
        ({
            let step = exact::pixel_step(m.frequency, size);
            let w = exact::prepared(m);
            let left = exact::pixel_at(m.tile_origin(x), step, size + n);
            let right = exact::pixel_at(m.tile_origin((x + 1) as i64), step, n);
            smoothness::distance(w.tone(left, ly) - w.tone(right, ly)) <= smoothness::tone_change(
                w,
                seam_gap(size, steps, reach),
            )
        }),
{
    let step = exact::pixel_step(m.frequency, size);
    let w = exact::prepared(m);
    let p = lemma_tiles_nearly_meet(m, x, size, steps, reach);
    lattice::lemma_advance_composes(0, p.0, (size + n) * step);
    lattice::lemma_advance_composes(0, p.1, n * step);
    lattice::lemma_at_own_position(ly);
    assert((size + n) * step == size * step + n * step) by (nonlinear_arith);
    let y = ly.position();
    let (a, b) = ((p.0 + (size + n) * step, y), (p.1 + n * step, y));
    smoothness::lemma_tone_continuous(m, a, b);
    smoothness::lemma_tone_change_grows(
        w,
        smoothness::apart(a, b),
        seam_gap(size, steps, reach),
    );
}

/// The same across a horizontal join.
pub proof fn lemma_horizontal_seam(
    m: Material,
    y: i64,
    lx: Lat,
    size: u32,
    steps: int,
    reach: int,
    n: int,
)
    requires
        lx.wf(),
        y < i64::MAX,
        within_reach(m, y, steps, reach),
        within_reach(m, (y + 1) as i64, steps, reach),
        0 < size < 0x100_0000,
        i32::MIN < exact::pixel_step(m.frequency, size) < i32::MAX,
        ({
            let step = exact::pixel_step(m.frequency, size);
            let w = exact::prepared(m);
            let above = exact::pixel_at(m.tile_origin(y), step, size + n);
            let below = exact::pixel_at(m.tile_origin((y + 1) as i64), step, n);
            &&& w.unwrapped(lx, above)
            &&& w.unwrapped(lx, below)
            &&& smoothness::pattern_settled(w, lx, above)
            &&& smoothness::pattern_settled(w, lx, below)
        }),
    ensures
        ({
            let step = exact::pixel_step(m.frequency, size);
            let w = exact::prepared(m);
            let above = exact::pixel_at(m.tile_origin(y), step, size + n);
            let below = exact::pixel_at(m.tile_origin((y + 1) as i64), step, n);
            smoothness::distance(w.tone(lx, above) - w.tone(lx, below)) <= smoothness::tone_change(
                w,
                seam_gap(size, steps, reach),
            )
        }),
{
    let step = exact::pixel_step(m.frequency, size);
    let w = exact::prepared(m);
    let p = lemma_tiles_nearly_meet(m, y, size, steps, reach);
    lattice::lemma_advance_composes(0, p.0, (size + n) * step);
    lattice::lemma_advance_composes(0, p.1, n * step);
    lattice::lemma_at_own_position(lx);
    assert((size + n) * step == size * step + n * step) by (nonlinear_arith);
    let x = lx.position();
    let (a, b) = ((x, p.0 + (size + n) * step), (x, p.1 + n * step));
    smoothness::lemma_tone_continuous(m, a, b);
    smoothness::lemma_tone_change_grows(
        w,
        smoothness::apart(a, b),
        seam_gap(size, steps, reach),
    );
}

/// The quotient that the tile index bound is the floor of, times the
/// frequency, is half a period, up to 32 steps. All in units of 2^-149.
proof fn lemma_limit_quotient(f: F32)
    requires
        f.sig() > 0,
    ensures
        ({
            let (q, e) = ieee::quotient(1, f.sig(), 53);
            let m = ieee::floor_scaled(q, e + 31 - f.exp());
            let w = f.sig() * pow2((f.exp() + 149) as nat);
            m * w <= pow2(180) + pow2(127) && pow2(180) - pow2(127) < (m + 1) * w
        }),
{
    let sig = f.sig();
    let w = (sig * pow2((f.exp() + 149) as nat)) as int;
    lemma2_to64();
    let (k, t) = lemma_quotient_close(1, sig, 53);
    grid::lemma_limit_reach(f, t);
    let (q, e) = ieee::quotient(1, sig, 53);
    let c = q * (sig * pow2(k));
    let m = ieee::floor_scaled(q, e + 31 - f.exp());
    let (u, v, z) = (pow2(53) as int, pow2(t) as int, pow2(180) as int);
    lemma_pow2_pos(53);
    lemma_pow2_pos(t);
    lemma_pow2_pos(180);
    lemma_pow2_adds(53, 127);
    assert(1 * pow2(t) == v);
    let d = smoothness::distance(c - v);
    assert(c * u <= v * u + v && v * u - v <= c * u) by (nonlinear_arith)
        requires
            d * u <= v,
            c - v <= d,
            v - c <= d,
            u > 0,
    ;
    let (reach, next) = (m * w, (m + 1) * w);
    assert(((reach * v) * u) <= (v * u + v) * z && (v * u - v) * z < (next * v) * u)
        by (nonlinear_arith)
        requires
            reach * v <= c * z,
            c * z < next * v,
            c * u <= v * u + v,
            v * u - v <= c * u,
            u > 0,
            z > 0,
    ;
    assert(reach * u <= u * z + z && u * z - z < next * u) by (nonlinear_arith)
        requires
            (reach * v) * u <= (v * u + v) * z,
            (v * u - v) * z < (next * v) * u,
            v > 0,
    ;
    let y = pow2(127) as int;
    assert(reach <= z + y && z - y < next) by (nonlinear_arith)
        requires
            reach * u <= u * z + z,
            u * z - z < next * u,
            z == u * y,
            u > 0,
    ;
}

/// The tile index bound times the frequency is half a period, up to 32 steps
/// and the fraction of a tile: no larger index would do, unless 64 bits hold
/// none. It has the sign of the frequency, and is the last index that 64 bits
/// hold for a frequency of zero.
pub proof fn lemma_limit_is_half_period(f: F32)
    ensures
        ({
            let (limit, w) = (material::tile_limit(f), weight(f));
            &&& f.nan() ==> limit == 0
            &&& !f.nan() && w == 0 ==> limit == if f.neg() {
                i64::MIN
            } else {
                i64::MAX
            }
            &&& !f.nan() && w > 0 ==> {
                &&& 0 <= limit && limit * w <= pow2(180) + pow2(127)
                &&& limit == i64::MAX || pow2(180) - pow2(127) < (limit + 1) * w
            }
            &&& !f.nan() && w < 0 ==> {
                &&& limit <= 0 && limit * w <= pow2(180) + pow2(127)
                &&& limit == i64::MIN || pow2(180) - pow2(127) < (limit - 1) * w
            }
        }),
{
    let (limit, w) = (material::tile_limit(f), weight(f));
    let x = pow2((f.exp() + 149) as nat) as int;
    lemma_pow2_pos((f.exp() + 149) as nat);
    let v = f.sig() * x;
    assert(v >= 0 && (v == 0 <==> f.sig() == 0)) by (nonlinear_arith)
        requires
            v == f.sig() * x,
            x > 0,
    ;
    if !f.nan() && f.sig() > 0 {
        lemma_limit_quotient(f);
        let (q, e) = ieee::quotient(1, f.sig(), 53);
        let m = ieee::floor_scaled(q, e + 31 - f.exp()) as int;
        assert((-m) * (-v) == m * v && (-m - 1) * (-v) == (m + 1) * v) by (nonlinear_arith);
        if f.neg() {
            assert(limit * w <= m * v) by (nonlinear_arith)
                requires
                    w == -v,
                    v >= 0,
                    -m <= limit,
            ;
        } else {
            assert(limit * w <= m * v) by (nonlinear_arith)
                requires
                    w == v,
                    v >= 0,
                    limit <= m,
            ;
        }
    }
}

/// No tile up to the largest usable index starts where a nearer one does,
/// on the grid or off it, where tiles are more than 260 steps wide.
pub proof fn lemma_wide_tiles_distinct(m: Material, a: i64, b: i64)
    requires
        m.frequency.biased() != 255,
        weight(m.frequency) > 260 * pow2(122),
        ieee::magnitude(b as int) < ieee::magnitude(a as int) <= material::tile_limit(
            m.frequency,
        ),
    ensures
        m.tile_origin(a) != m.tile_origin(b),
{
    let f = m.frequency;
    let w = weight(f);
    let h = pow2(122) as int;
    lemma_pow2_pos(122);
    lemma_limit_is_half_period(f);
    let (na, nb) = (ieee::magnitude(a as int) as int, ieee::magnitude(b as int) as int);
    let limit = material::tile_limit(f);
    assert(na * w <= limit * w) by (nonlinear_arith)
        requires
            na <= limit,
            w > 0,
    ;
    assert(nb * w <= na * w - w) by (nonlinear_arith)
        requires
            nb <= na - 1,
            w > 0,
    ;
    let (ia, ib) = (a * w, b * w);
    assert(smoothness::distance(ia) == na * w) by (nonlinear_arith)
        requires
            w > 0,
            na == if a < 0 { -a } else { a as int },
            smoothness::distance(ia) == if ia < 0 { -ia } else { ia },
            ia == a * w,
    ;
    assert(smoothness::distance(ib) == nb * w) by (nonlinear_arith)
        requires
            w > 0,
            nb == if b < 0 { -b } else { b as int },
            smoothness::distance(ib) == if ib < 0 { -ib } else { ib },
            ib == b * w,
    ;
    lemma_pow2_adds(53, 127);
    lemma_pow2_adds(5, 122);
    lemma_pow2_adds(58, 122);
    lemma_pow2_adds(89, 122);
    lemma_pow2_strictly_increases(59, 89);
    lemma2_to64();
    lemma2_to64_rest();
    assert(pow2(180) + pow2(127) <= pow2(211)) by (nonlinear_arith)
        requires
            pow2(180) == 0x0400_0000_0000_0000 * h,
            pow2(127) == 32 * h,
            pow2(211) == pow2(89) * h,
            pow2(89) > 0x0800_0000_0000_0000,
            h > 0,
    ;
    let p = lemma_origin_close(m, a);
    let q = lemma_origin_close(m, b);
    lemma_origin_error(p, ia);
    lemma_origin_error(q, ib);
    // The distance between the origins, as a number of steps.
    let g = p - q;
    assert(g * h == (p * h - ia) - (q * h - ib) + (ia - ib)) by (nonlinear_arith)
        requires
            g == p - q,
    ;
    let period = lattice::period();
    assert(g != 0 && -period < g < period) by (nonlinear_arith)
        requires
            (w - 196 * h <= g * h && g * h <= 2 * (0x0400_0000_0000_0000 * h + 32 * h) - w + 196
                * h) || (-(2 * (0x0400_0000_0000_0000 * h + 32 * h) - w + 196 * h) <= g * h && g * h
                <= -(w - 196 * h)),
            w > 260 * h,
            h > 0,
            period == 0x0800_0000_0000_0000,
    ;
    if m.tile_origin(a) == m.tile_origin(b) {
        let ka = lattice::lemma_at_stands_for(p);
        let kb = lattice::lemma_at_stands_for(q);
        let k = ka - kb;
        assert(g == k * period) by (nonlinear_arith)
            requires
                g == ka * period - kb * period,
                k == ka - kb,
        ;
        assert(k == 0) by (nonlinear_arith)
            requires
                g == k * period,
                -period < g < period,
        ;
        assert(0 * period == 0);
    }
}

/// Within the usable range an origin is within 98 steps of where it should
/// be.
proof fn lemma_origin_error(p: int, ideal: int)
    requires
        smoothness::distance(ideal) <= pow2(180) + pow2(127),
        smoothness::distance(p * pow2(122) - ideal) * pow2(53) <= 3 * smoothness::distance(ideal)
            + pow2(175),
    ensures
        smoothness::distance(p * pow2(122) - ideal) <= 98 * pow2(122),
{
    let (h, u) = (pow2(122) as int, pow2(53) as int);
    lemma2_to64();
    lemma2_to64_rest();
    lemma_pow2_pos(122);
    lemma_pow2_adds(53, 122);
    lemma_pow2_adds(5, 175);
    lemma_pow2_adds(5, 122);
    let e = smoothness::distance(p * h - ideal);
    assert(e <= 98 * h) by (nonlinear_arith)
        requires
            e * u <= 3 * (32 * (u * h) + 32 * h) + u * h,
            u == 0x20_0000_0000_0000,
            h > 0,
    ;
}

} // verus!
