//! Where tiles lie, where floating point is exact.
//!
//! A tile's origin is a binary64 product of its index and the frequency,
//! split into a lattice coordinate. Where that product needs no rounding the
//! origins form a grid of exactly the frequency's spacing, and the tiles are
//! windows on one plane that repeats every 2^32 cells.

use vstd::arithmetic::div_mod::*;
use vstd::arithmetic::power2::*;
use vstd::prelude::*;

use crate::exact;
use crate::exact::Lat;
use crate::fixed::ONE;
use crate::ieee;
use crate::ieee::{F32, F64};
use crate::lattice;
use crate::material;
use crate::material::Material;
use crate::math;

verus! {

/// A number that 53 binary digits can hold, whatever its scale.
pub open spec fn short(n: nat) -> bool {
    exists|m: nat, k: nat| n == #[trigger] (m * pow2(k)) && m < 0x20_0000_0000_0000
}

/// The value of a binary32 number is `steps` steps of 2^-27.
pub open spec fn worth_steps(f: F32, steps: int) -> bool {
    &&& f.biased() != 255
    &&& f.sig() * pow2((f.exp() + 149) as nat) == ieee::magnitude(steps) * pow2(122)
    &&& steps < 0 ==> f.neg()
    &&& steps > 0 ==> !f.neg()
}

/// The value of a binary64 number is `steps` steps of 2^-27.
pub open spec fn f64_worth_steps(v: F64, steps: int) -> bool {
    &&& !v.nan()
    &&& v.sig() * pow2((v.exp() + 1101) as nat) == ieee::magnitude(steps) * pow2(1074)
    &&& steps < 0 ==> v.neg()
    &&& steps > 0 ==> !v.neg()
}

/// A common factor can be cancelled.
proof fn lemma_cancel(a: int, b: int, c: int)
    requires
        a * c == b * c,
        c > 0,
    ensures
        a == b,
{
    assert(a == b) by (nonlinear_arith)
        requires
            a * c == b * c,
            c > 0,
    ;
}

/// What differs from a short number by a power of two is short.
proof fn lemma_short_scaled(n: nat, a: nat, j: nat, b: nat)
    requires
        short(j),
        n * pow2(a) == j * pow2(b),
    ensures
        short(n),
{
    let (m, k) = choose|m: nat, k: nat|
        j == #[trigger] (m * pow2(k)) && m < 0x20_0000_0000_0000;
    lemma_pow2_adds(k, b);
    assert(j * pow2(b) == m * pow2(k + b)) by (nonlinear_arith)
        requires
            j == m * pow2(k),
            pow2(k + b) == pow2(k) * pow2(b),
    ;
    if k + b >= a {
        let c = (k + b - a) as nat;
        lemma_pow2_adds(c, a);
        lemma_pow2_pos(a);
        assert(m * pow2(k + b) == (m * pow2(c)) * pow2(a)) by (nonlinear_arith)
            requires
                pow2(k + b) == pow2(c) * pow2(a),
        ;
        lemma_cancel(n as int, (m * pow2(c)) as int, pow2(a) as int);
        assert(n == m * pow2(c));
    } else {
        let c = (a - (k + b)) as nat;
        lemma_pow2_adds(c, k + b);
        lemma_pow2_pos(k + b);
        lemma_pow2_pos(c);
        assert(n * pow2(a) == (n * pow2(c)) * pow2(k + b)) by (nonlinear_arith)
            requires
                pow2(a) == pow2(c) * pow2(k + b),
        ;
        lemma_cancel((n * pow2(c)) as int, m as int, pow2(k + b) as int);
        assert(n <= m) by (nonlinear_arith)
            requires
                n * pow2(c) == m,
                pow2(c) >= 1,
        ;
        lemma2_to64();
        assert(n == n * pow2(0)) by (nonlinear_arith)
            requires
                pow2(0) == 1,
        ;
    }
}

/// A short number is its significand of 53 digits, to scale.
proof fn lemma_short_significand(n: nat)
    requires
        short(n),
        n > 0,
    ensures
        ({
            let len = ieee::bit_length(n);
            &&& len <= 53 ==> ieee::significand(n, 53) == n * pow2((53 - len) as nat)
            &&& len > 53 ==> ieee::significand(n, 53) * pow2((len - 53) as nat) == n
        }),
{
    let len = ieee::bit_length(n);
    if len > 53 {
        let (m, k) = choose|m: nat, k: nat|
            n == #[trigger] (m * pow2(k)) && m < 0x20_0000_0000_0000;
        ieee::lemma_bit_length(n);
        lemma2_to64();
        lemma2_to64_rest();
        lemma_pow2_adds(53, k);
        lemma_pow2_pos(k);
        assert(n < pow2(53 + k)) by (nonlinear_arith)
            requires
                n == m * pow2(k),
                m < pow2(53),
                pow2(53 + k) == pow2(53) * pow2(k),
                pow2(k) > 0,
        ;
        ieee::lemma_bit_length_below(n, 53 + k);
        let d = (len - 53) as nat;
        let c = (k - d) as nat;
        lemma_pow2_adds(c, d);
        lemma_pow2_pos(d);
        let q = m * pow2(c);
        assert(n == q * pow2(d)) by (nonlinear_arith)
            requires
                n == m * pow2(k),
                pow2(k) == pow2(c) * pow2(d),
                q == m * pow2(c),
        ;
        lemma_fundamental_div_mod_converse(n as int, pow2(d) as int, q as int, 0);
        ieee::lemma_nearest_even(n, pow2(d));
    }
}

/// Rounding a short number to binary64 changes nothing.
proof fn lemma_short_exact(neg: bool, n: nat, e: int)
    requires
        short(n),
        n > 0,
        -1021 <= e,
        1 <= ieee::bit_length(n) + e + 1022 <= 2045,
    ensures
        ({
            let v = F64 { bits: ieee::nearest_f64(neg, n, e) as u64 };
            &&& !v.nan()
            &&& v.neg() == neg
            &&& v.exp() + 1074 >= 0
            &&& v.sig() * pow2((v.exp() + 1074) as nat) == n * pow2((e + 1074) as nat)
        }),
{
    let v = F64 { bits: ieee::nearest_f64(neg, n, e) as u64 };
    let len = ieee::bit_length(n);
    let s = ieee::significand(n, 53);
    ieee::lemma_nearest_f64_parts(neg, n, e);
    ieee::lemma_bit_length(n);
    lemma_short_significand(n);
    let x = (e + 1074) as nat;
    let y = (len + e - 53 + 1074) as nat;
    // s * 2^(len - 53) = n
    if len <= 53 {
        let c = (53 - len) as nat;
        lemma_pow2_adds(c, y);
        assert(s * pow2(y) == n * pow2(x)) by (nonlinear_arith)
            requires
                s == n * pow2(c),
                pow2(x) == pow2(c) * pow2(y),
        ;
    } else {
        let c = (len - 53) as nat;
        lemma_pow2_adds(c, x);
        assert(s * pow2(y) == n * pow2(x)) by (nonlinear_arith)
            requires
                s * pow2(c) == n,
                pow2(y) == pow2(c) * pow2(x),
        ;
    }
    if s == 0x20_0000_0000_0000 {
        lemma_pow2_unfold((y + 1) as nat);
        assert(0x10_0000_0000_0000 * pow2(y + 1) == s * pow2(y)) by (nonlinear_arith)
            requires
                pow2(y + 1) == 2 * pow2(y),
                s == 0x20_0000_0000_0000,
        ;
    }
}

/// What lies above the floor converts exactly, where it is a whole number
/// of steps.
proof fn lemma_offset_exact(n: nat, d: nat, m: nat)
    requires
        d >= 1,
        n < pow2(d),
        n * pow2(27) == m * pow2(d),
    ensures
        lattice::offset_steps(n, -(d as int)) == m,
{
    lemma_pow2_pos(d);
    lemma_pow2_pos(27);
    if n == 0 {
        assert(m == 0) by (nonlinear_arith)
            requires
                m * pow2(d) == 0 * pow2(27),
                pow2(d) > 0,
                m >= 0,
        ;
    } else {
        let len = ieee::bit_length(n);
        ieee::lemma_bit_length(n);
        ieee::lemma_bit_length_below(n, d);
        lemma2_to64();
        assert(m < pow2(27)) by (nonlinear_arith)
            requires
                n < pow2(d),
                n * pow2(27) == m * pow2(d),
                pow2(27) > 0,
        ;
        assert(short(m)) by {
            assert(m == m * pow2(0)) by (nonlinear_arith)
                requires
                    pow2(0) == 1,
            ;
        }
        lemma_short_scaled(n, 27, m, d);
        lemma_short_significand(n);
        let s = ieee::significand(n, 53);
        let below = (d + 26 - len) as nat;
        lemma_pow2_pos(below);
        let target = m * pow2(below);
        if len <= 53 {
            let c = (53 - len) as nat;
            lemma_pow2_adds(d, c);
            lemma_pow2_adds(below, 27);
            assert(s * pow2(27) == target * pow2(27)) by (nonlinear_arith)
                requires
                    s == n * pow2(c),
                    n * pow2(27) == m * pow2(d),
                    target == m * pow2(below),
                    pow2(d) * pow2(c) == pow2(below) * pow2(27),
            ;
            lemma_cancel(s as int, target as int, pow2(27) as int);
        } else {
            let c = (len - 53) as nat;
            lemma_pow2_adds(c, 27);
            lemma_pow2_adds(below, c + 27);
            lemma_pow2_pos(c + 27);
            assert(s * pow2(c + 27) == target * pow2(c + 27)) by (nonlinear_arith)
                requires
                    s * pow2(c) == n,
                    n * pow2(27) == m * pow2(d),
                    target == m * pow2(below),
                    pow2(c + 27) == pow2(c) * pow2(27),
                    pow2(d) == pow2(below) * pow2(c + 27),
            ;
            lemma_cancel(s as int, target as int, pow2(c + 27) as int);
        }
        assert(s == pow2(below) * m) by (nonlinear_arith)
            requires
                s == m * pow2(below),
        ;
        lemma_div_multiples_vanish(m as int, pow2(below) as int);
    }
}

/// Splitting a whole number of steps loses nothing.
pub proof fn lemma_split_exact(v: F64, steps: int)
    requires
        f64_worth_steps(v, steps),
        ieee::magnitude(steps) < 0x8000_0000_0000_0000 * ONE,
    ensures
        lattice::split_of(v) == Lat::at(steps),
{
    let p = ieee::magnitude(steps);
    let (sig, exp) = (v.sig(), v.exp());
    lemma2_to64();
    lemma_pow2_pos(1074);
    if exp >= 0 {
        let m = sig * pow2(exp as nat);
        lemma_pow2_adds(exp as nat, 27);
        lemma_pow2_adds((exp + 27) as nat, 1074);
        assert(p == m * pow2(27)) by {
            assert((m * pow2(27)) * pow2(1074) == p * pow2(1074)) by (nonlinear_arith)
                requires
                    m == sig * pow2(exp as nat),
                    pow2((exp + 27) as nat) == pow2(exp as nat) * pow2(27),
                    pow2((exp + 1101) as nat) == pow2((exp + 27) as nat) * pow2(1074),
                    sig * pow2((exp + 1101) as nat) == p * pow2(1074),
            ;
            lemma_cancel((m * pow2(27)) as int, p as int, pow2(1074) as int);
        }
        assert(lattice::offset_steps(0, exp) == 0);
    } else {
        let d = (-exp) as nat;
        let unit = pow2(d);
        lemma_pow2_pos(d);
        let x = (exp + 1074) as nat;
        lemma_pow2_adds(x, 27);
        lemma_pow2_adds(x, d);
        lemma_pow2_pos(x);
        assert(sig * pow2(27) == p * unit) by {
            assert((sig * pow2(27)) * pow2(x) == (p * unit) * pow2(x)) by (nonlinear_arith)
                requires
                    pow2((exp + 1101) as nat) == pow2(x) * pow2(27),
                    pow2(1074) == pow2(x) * unit,
                    sig * pow2((exp + 1101) as nat) == p * pow2(1074),
            ;
            lemma_cancel((sig * pow2(27)) as int, (p * unit) as int, pow2(x) as int);
        }
        let (q, r) = (sig / unit, sig % unit);
        lemma_fundamental_div_mod(sig as int, unit as int);
        lemma_mod_bound(sig as int, unit as int);
        let m = p - q * ONE;
        assert(r * pow2(27) == m * unit) by (nonlinear_arith)
            requires
                sig * pow2(27) == p * unit,
                sig == unit * q + r,
                pow2(27) == 0x800_0000,
                m == p - q * 0x800_0000,
        ;
        assert(0 <= m < ONE) by (nonlinear_arith)
            requires
                r * pow2(27) == m * unit,
                0 <= r < unit,
                pow2(27) == 0x800_0000,
                ONE == 0x800_0000,
        ;
        if v.neg() && r != 0 {
            let above = (unit - r) as nat;
            let up = (ONE - m) as nat;
            assert(above * pow2(27) == up * unit) by (nonlinear_arith)
                requires
                    r * pow2(27) == m * unit,
                    above == unit - r,
                    up == 0x800_0000 - m,
                    pow2(27) == 0x800_0000,
            ;
            lemma_offset_exact(above, d, up);
        } else {
            lemma_offset_exact(r, d, m as nat);
            if r == 0 {
                assert(m == 0) by (nonlinear_arith)
                    requires
                        r * pow2(27) == m * unit,
                        r == 0,
                        unit > 0,
                ;
            }
        }
    }
}

/// The product of a tile index and a frequency is exact, where both it and
/// the index are short.
#[verifier::rlimit(40)]
pub proof fn lemma_scaled_exact(x: i64, f: F32, steps: int)
    requires
        worth_steps(f, steps),
        short(ieee::magnitude(x as int)),
        short(ieee::magnitude(x * steps)),
    ensures
        f64_worth_steps(ieee::scaled(x, f), x * steps),
{
    let n = ieee::magnitude(x as int);
    let v = ieee::scaled(x, f);
    let a = F64 { bits: ieee::nearest_f64(x < 0, n, 0) as u64 };
    let j = ieee::magnitude(x * steps);
    let w = ieee::magnitude(steps);
    assert(j == n * w) by (nonlinear_arith)
        requires
            n == if x < 0 { -x } else { x as int },
            w == if steps < 0 { -steps } else { steps },
            j == if x * steps < 0 { -(x * steps) } else { x * steps },
    ;
    lemma2_to64();
    lemma2_to64_rest();
    let product = a.sig() * f.sig();
    if x == 0 || f.sig() == 0 {
        if x == 0 {
            assert(a.sig() == 0);
        }
        assert(product == 0) by (nonlinear_arith)
            requires
                product == a.sig() * f.sig(),
                a.sig() == 0 || f.sig() == 0,
        ;
        if f.sig() == 0 {
            lemma_pow2_pos(122);
            assert(w == 0) by (nonlinear_arith)
                requires
                    0 * pow2((f.exp() + 149) as nat) == w * pow2(122),
                    pow2(122) > 0,
            ;
        }
        assert(j == 0) by (nonlinear_arith)
            requires
                j == n * w,
                n == 0 || w == 0,
        ;
        assert(x * steps == 0);
        assert(v.sig() == 0);
        assert(0 * pow2((v.exp() + 1101) as nat) == 0 * pow2(1074)) by (nonlinear_arith);
    } else {
        ieee::lemma_bit_length_below(n, 64);
        ieee::lemma_bit_length(n);
        lemma_short_exact(x < 0, n, 0);
        ieee::lemma_nearest_f64_parts(x < 0, n, 0);
        assert(product > 0) by (nonlinear_arith)
            requires
                product == a.sig() * f.sig(),
                a.sig() > 0,
                f.sig() > 0,
        ;
        let e = a.exp() + f.exp();
        // product * 2^(e + 1074 + 149) = j * 2^(1074 + 122)
        let (ea, ef) = ((a.exp() + 1074) as nat, (f.exp() + 149) as nat);
        lemma_pow2_adds(ea, ef);
        lemma_pow2_adds(1074, 122);
        assert(product * pow2(ea + ef) == j * pow2(1196)) by (nonlinear_arith)
            requires
                product == a.sig() * f.sig(),
                a.sig() * pow2(ea) == n * pow2(1074),
                f.sig() * pow2(ef) == w * pow2(122),
                j == n * w,
                pow2(ea + ef) == pow2(ea) * pow2(ef),
                pow2(1196) == pow2(1074) * pow2(122),
        ;
        lemma_short_scaled(product, ea + ef, j, 1196);
        assert(product < 0x20_0000_0000_0000 * 0x100_0000) by (nonlinear_arith)
            requires
                product == a.sig() * f.sig(),
                a.sig() < 0x20_0000_0000_0000,
                f.sig() < 0x100_0000,
        ;
        lemma_pow2_adds(53, 24);
        assert(0x20_0000_0000_0000int * 0x100_0000int == pow2(53) * pow2(24)) by (nonlinear_arith)
            requires
                pow2(53) == 0x20_0000_0000_0000,
                pow2(24) == 0x100_0000,
        ;
        ieee::lemma_bit_length_below(product, 77);
        ieee::lemma_bit_length(product);
        assert(-52 <= a.exp() <= 11);
        lemma_short_exact(a.neg() != f.neg(), product, e);
        // v = product * 2^e, and 149 - 27 = 122.
        let (x0, y0) = ((v.exp() + 1074) as nat, (e + 1074) as nat);
        lemma_pow2_adds(x0, 27);
        lemma_pow2_adds(y0, 149);
        lemma_pow2_adds(27, 122);
        lemma_pow2_pos(122);
        assert((v.sig() * pow2(x0 + 27)) * pow2(122) == (j * pow2(1074)) * pow2(122))
            by (nonlinear_arith)
            requires
                v.sig() * pow2(x0) == product * pow2(y0),
                product * pow2(y0 + 149) == j * pow2(1196),
                pow2(x0 + 27) == pow2(x0) * pow2(27),
                pow2(y0 + 149) == pow2(y0) * pow2(149),
                pow2(149) == pow2(27) * pow2(122),
                pow2(1196) == pow2(1074) * pow2(122),
        ;
        lemma_cancel((v.sig() * pow2(x0 + 27)) as int, (j * pow2(1074)) as int, pow2(122) as int);
        assert(x * steps < 0 ==> (x < 0) != (steps < 0)) by (nonlinear_arith);
        assert(x * steps > 0 ==> (x < 0) == (steps < 0)) by (nonlinear_arith);
        assert(steps != 0) by {
            if steps == 0 {
                lemma_pow2_pos(ef);
                assert(f.sig() * pow2(ef) > 0) by (nonlinear_arith)
                    requires
                        f.sig() > 0,
                        pow2(ef) > 0,
                ;
                assert(0 * pow2(122) == 0) by (nonlinear_arith);
            }
        }
    }
}

/// A tile of index `x`, at a frequency of `steps`, lies on the grid: nothing
/// on the way to its origin is rounded or saturated.
pub open spec fn on_grid(m: Material, x: i64, steps: int) -> bool {
    &&& worth_steps(m.frequency, steps)
    &&& short(ieee::magnitude(x as int))
    &&& short(ieee::magnitude(x * steps))
    &&& ieee::magnitude(x * steps) < 0x8000_0000_0000_0000 * ONE
}

/// Tiles lie on a grid of the frequency's spacing.
pub proof fn lemma_tile_origin(m: Material, x: i64, steps: int)
    requires
        on_grid(m, x, steps),
    ensures
        m.tile_origin(x) == Lat::at(x * steps),
{
    lemma_scaled_exact(x, m.frequency, steps);
    lemma_split_exact(ieee::scaled(x, m.frequency), x * steps);
}

/// Adjacent tiles meet without a seam: where the pixels divide the frequency
/// evenly, pixel `n` of a tile is the same point of the plane as pixel
/// `size + n` of the tile before it would be.
pub proof fn lemma_adjacent_tiles(m: Material, x: i64, size: u32, steps: int, n: int)
    requires
        x < i64::MAX,
        on_grid(m, x, steps),
        on_grid(m, (x + 1) as i64, steps),
        size * exact::pixel_step(m.frequency, size) == steps,
    ensures
        ({
            let step = exact::pixel_step(m.frequency, size);
            exact::pixel_at(m.tile_origin((x + 1) as i64), step, n) == exact::pixel_at(
                m.tile_origin(x),
                step,
                size + n,
            )
        }),
{
    let step = exact::pixel_step(m.frequency, size);
    lemma_tile_origin(m, x, steps);
    lemma_tile_origin(m, (x + 1) as i64, steps);
    assert((x + 1) * steps == x * steps + size * step) by (nonlinear_arith)
        requires
            size * step == steps,
    ;
    let (a, b) = (m.tile_origin(x), m.tile_origin((x + 1) as i64));
    lattice::lemma_advance_composes(0, x * steps, size * step);
    lattice::lemma_tiles_meet(a, b, size as int, n, step);
}

/// The field repeats: tiles a whole number of periods apart are the same
/// picture.
pub proof fn lemma_field_repeats(m: Material, a: i64, b: i64, steps: int, k: int)
    requires
        on_grid(m, a, steps),
        on_grid(m, b, steps),
        (b - a) * steps == k * lattice::period(),
    ensures
        m.tile_origin(a) == m.tile_origin(b),
{
    lemma_tile_origin(m, a, steps);
    lemma_tile_origin(m, b, steps);
    assert(b * steps == a * steps + k * lattice::period()) by (nonlinear_arith)
        requires
            (b - a) * steps == k * lattice::period(),
    ;
    lattice::lemma_at_periodic(a * steps, k);
}

/// The quotient that bounds the tile index, as a whole number: it is exact
/// for a power of two, and otherwise less than twice what it should be.
proof fn lemma_tile_limit_quotient(sig: nat, pure: bool, z: nat) -> (t: nat)
    requires
        0 < sig < 0x100_0000,
        pure ==> sig == pow2(z),
    ensures
        ({
            let (q, e) = ieee::quotient(1, sig, 53);
            let k = (e + t) as nat;
            &&& e + t >= 0
            &&& q * (sig * pow2(k)) < 2 * pow2(t)
            &&& pure ==> q * (sig * pow2(k)) == pow2(t)
        }),
{
    let t = 53 + ieee::bit_length(sig);
    let num = pow2(t);
    let n = num / sig;
    let k = (ieee::bit_length(n) - 53) as nat;
    let den = sig * pow2(k);
    lemma2_to64();
    ieee::lemma_bit_length_below(sig, 24);
    ieee::lemma_bit_length(sig);
    lemma_pow2_strictly_increases(t, 126);
    assert(1 * num == num);
    ieee::lemma_quotient_digits(1, sig, 53, n, num);
    ieee::lemma_nearest_even(num, den);
    if pure {
        lemma_pow2_adds(z, k);
        if z + k > t {
            lemma_pow2_strictly_increases(t, z + k);
        }
        let c = (t - (z + k)) as nat;
        lemma_pow2_adds(c, z + k);
        lemma_fundamental_div_mod_converse(num as int, den as int, pow2(c) as int, 0);
    }
    t
}

/// The tile index bound times the frequency is at most what the quotient
/// makes of it, in units of 2^-149, and less than a tile short of it.
pub proof fn lemma_limit_reach(f: F32, t: nat)
    requires
        f.sig() > 0,
        ieee::quotient(1, f.sig(), 53).1 + t >= 0,
    ensures
        ({
            let (q, e) = ieee::quotient(1, f.sig(), 53);
            let w = f.sig() * pow2((f.exp() + 149) as nat);
            let c = q * (f.sig() * pow2((e + t) as nat));
            let m = ieee::floor_scaled(q, e + 31 - f.exp());
            (m * w) * pow2(t) <= c * pow2(180) && c * pow2(180) < ((m + 1) * w) * pow2(t)
        }),
{
    let (sig, exp) = (f.sig(), f.exp());
    let (q, e) = ieee::quotient(1, sig, 53);
    let k = (e + t) as nat;
    let c = q * (sig * pow2(k));
    let scale = e + 31 - exp;
    let m = ieee::floor_scaled(q, scale);
    let x = (exp + 149) as nat;
    let w = sig * pow2(x);
    lemma_pow2_adds(k, 180);
    lemma_pow2_adds(x, t);
    lemma_pow2_pos(x + t);
    assert((m * w) * pow2(t) == (m * sig) * pow2(x + t)) by (nonlinear_arith)
        requires
            w == sig * pow2(x),
            pow2(x + t) == pow2(x) * pow2(t),
    ;
    assert(((m + 1) * w) * pow2(t) == ((m + 1) * sig) * pow2(x + t)) by (nonlinear_arith)
        requires
            w == sig * pow2(x),
            pow2(x + t) == pow2(x) * pow2(t),
    ;
    if scale >= 0 {
        let u = scale as nat;
        lemma_pow2_adds(u, x + t);
        assert((m * sig) * pow2(x + t) == c * pow2(180)) by (nonlinear_arith)
            requires
                m == q * pow2(u),
                pow2(k + 180) == pow2(u) * pow2(x + t),
                pow2(k + 180) == pow2(k) * pow2(180),
                c == q * (sig * pow2(k)),
        ;
        assert((m * sig) * pow2(x + t) < ((m + 1) * sig) * pow2(x + t)) by (nonlinear_arith)
            requires
                sig > 0,
                pow2(x + t) > 0,
        ;
    } else {
        let u = (-scale) as nat;
        lemma_pow2_pos(u);
        lemma_pow2_pos(k + 180);
        lemma_fundamental_div_mod(q as int, pow2(u) as int);
        lemma_mod_bound(q as int, pow2(u) as int);
        assert(m * pow2(u) <= q && q < (m + 1) * pow2(u)) by (nonlinear_arith)
            requires
                q == pow2(u) * m + q % pow2(u),
                0 <= q % pow2(u) < pow2(u),
        ;
        lemma_pow2_adds(k + 180, u);
        lemma_reach_of_floor(m, q, sig, pow2(u), pow2(k + 180));
        assert((m * sig) * pow2(x + t) == (m * pow2(u)) * (sig * pow2(k + 180)))
            by (nonlinear_arith)
            requires
                pow2(x + t) == pow2(k + 180) * pow2(u),
        ;
        assert(((m + 1) * sig) * pow2(x + t) == ((m + 1) * pow2(u)) * (sig * pow2(k + 180)))
            by (nonlinear_arith)
            requires
                pow2(x + t) == pow2(k + 180) * pow2(u),
        ;
        assert(q * (sig * pow2(k + 180)) == c * pow2(180)) by (nonlinear_arith)
            requires
                pow2(k + 180) == pow2(k) * pow2(180),
                c == q * (sig * pow2(k)),
        ;
    }
}

/// A floor times its divisor, scaled.
proof fn lemma_reach_of_floor(m: nat, q: nat, sig: nat, u: nat, z: nat)
    requires
        m * u <= q,
        q < (m + 1) * u,
        sig > 0,
        z > 0,
    ensures
        (m * u) * (sig * z) <= q * (sig * z),
        q * (sig * z) < ((m + 1) * u) * (sig * z),
{
    assert(sig * z > 0) by (nonlinear_arith)
        requires
            sig > 0,
            z > 0,
    ;
    let y = sig * z;
    let (a, b) = (m * u, (m + 1) * u);
    assert(a * y <= q * y && q * y < b * y) by (nonlinear_arith)
        requires
            a <= q,
            q < b,
            y > 0,
    ;
}

/// The tile index bound keeps a tile's distance from the origin below a
/// period, and exactly within half a period where the frequency is a power
/// of two.
proof fn lemma_tile_limit(f: F32, steps: int, pure: bool, z: nat)
    requires
        worth_steps(f, steps),
        steps > 0,
        pure ==> f.sig() == pow2(z),
    ensures
        0 <= material::tile_limit(f),
        material::tile_limit(f) * steps < lattice::period(),
        pure ==> 2 * (material::tile_limit(f) * steps) <= lattice::period(),
{
    let (sig, exp) = (f.sig(), f.exp());
    lemma_pow2_pos(122);
    if sig == 0 {
        assert(0 * pow2((exp + 149) as nat) == 0) by (nonlinear_arith);
        assert(steps * pow2(122) > 0) by (nonlinear_arith)
            requires
                steps > 0,
                pow2(122) > 0,
        ;
    }
    let t = lemma_tile_limit_quotient(sig, pure, z);
    let (q, e) = ieee::quotient(1, sig, 53);
    let c = q * (sig * pow2((e + t) as nat));
    let m = ieee::floor_scaled(q, e + 31 - exp);
    lemma_pow2_adds(122, t);
    lemma_limit_reach(f, t);
    assert((m * steps) * pow2(122 + t) <= c * pow2(180)) by (nonlinear_arith)
        requires
            (m * (steps * pow2(122))) * pow2(t) <= c * pow2(180),
            pow2(122 + t) == pow2(122) * pow2(t),
    ;
    lemma_pow2_adds(122, 58);
    lemma_pow2_pos(t);
    lemma_pow2_pos(122 + t);
    lemma2_to64();
    lemma2_to64_rest();
    let p = m * steps;
    assert(p < 2 * pow2(58)) by (nonlinear_arith)
        requires
            p * pow2(122 + t) <= c * pow2(180),
            c < 2 * pow2(t),
            pow2(180) == pow2(122) * pow2(58),
            pow2(122 + t) == pow2(122) * pow2(t),
            pow2(122 + t) > 0,
            pow2(122) > 0,
            pow2(58) > 0,
    ;
    if pure {
        assert(p <= pow2(58)) by (nonlinear_arith)
            requires
                p * pow2(122 + t) <= c * pow2(180),
                c == pow2(t),
                pow2(180) == pow2(122) * pow2(58),
                pow2(122 + t) == pow2(122) * pow2(t),
                pow2(122 + t) > 0,
        ;
    }
    let limit = material::tile_limit(f);
    assert(0 <= limit <= m);
    assert(limit * steps <= p) by (nonlinear_arith)
        requires
            limit <= m,
            steps > 0,
            p == m * steps,
    ;
}

/// A factor of a power of two is a power of two.
proof fn lemma_factor_of_power(a: nat, b: nat, n: nat) -> (k: nat)
    requires
        a * b == pow2(n),
    ensures
        a == pow2(k),
    decreases n,
{
    lemma2_to64();
    lemma_pow2_pos(n);
    assert(a > 0 && b > 0) by (nonlinear_arith)
        requires
            a * b > 0,
            a >= 0,
            b >= 0,
    ;
    if n == 0 {
        assert(a == 1) by (nonlinear_arith)
            requires
                a * b == 1,
                a > 0,
                b > 0,
        ;
        0
    } else {
        lemma_pow2_unfold(n);
        let m = (n - 1) as nat;
        if a % 2 == 0 {
            let h = a / 2;
            assert(h * b == pow2(m)) by (nonlinear_arith)
                requires
                    a == 2 * h,
                    a * b == 2 * pow2(m),
            ;
            let k = lemma_factor_of_power(h, b, m);
            lemma_pow2_unfold(k + 1);
            k + 1
        } else {
            let h = b / 2;
            if b % 2 == 1 {
                let (i, j) = (a / 2, h);
                assert(a * b == 2 * (2 * (i * j) + i + j) + 1) by (nonlinear_arith)
                    requires
                        a == 2 * i + 1,
                        b == 2 * j + 1,
                ;
                assert(false);
            }
            assert(a * h == pow2(m)) by (nonlinear_arith)
                requires
                    b == 2 * h,
                    a * b == 2 * pow2(m),
            ;
            lemma_factor_of_power(a, h, m)
        }
    }
}

/// No tile up to the largest usable index starts where a nearer one does.
pub proof fn lemma_usable_tiles_distinct(m: Material, a: i64, b: i64, steps: int)
    requires
        steps > 0,
        on_grid(m, a, steps),
        on_grid(m, b, steps),
        ieee::magnitude(b as int) < ieee::magnitude(a as int) <= material::tile_limit(
            m.frequency,
        ),
    ensures
        m.tile_origin(a) != m.tile_origin(b),
{
    if m.tile_origin(a) == m.tile_origin(b) {
        let f = m.frequency;
        lemma_tile_origin(m, a, steps);
        lemma_tile_origin(m, b, steps);
        let ka = lattice::lemma_at_stands_for(a * steps);
        let kb = lattice::lemma_at_stands_for(b * steps);
        let k = if a > b {
            ka - kb
        } else {
            kb - ka
        };
        let d = if a > b {
            a - b
        } else {
            b - a
        };
        let limit = material::tile_limit(f);
        assert(d * steps == k * lattice::period()) by (nonlinear_arith)
            requires
                (d == a - b && k == ka - kb) || (d == b - a && k == kb - ka),
                a * steps - b * steps == (ka - kb) * lattice::period(),
        ;
        assert(0 < d <= 2 * limit - 1);
        lemma_tile_limit(f, steps, false, 0);
        assert(0 < d * steps < 2 * (limit * steps)) by (nonlinear_arith)
            requires
                0 < d <= 2 * limit - 1,
                steps > 0,
        ;
        assert(k == 1);
        // The frequency is then a power of two.
        lemma2_to64();
        lemma2_to64_rest();
        let w = steps as nat;
        assert(w * (d as nat) == pow2(59)) by (nonlinear_arith)
            requires
                d * steps == pow2(59),
                w == steps,
        ;
        let z = lemma_factor_of_power(w, d as nat, 59);
        lemma_pow2_adds(z, 122);
        let y = lemma_factor_of_power(f.sig(), pow2((f.exp() + 149) as nat), z + 122);
        lemma_tile_limit(f, steps, true, y);
        assert(d * steps < lattice::period()) by (nonlinear_arith)
            requires
                0 < d <= 2 * limit - 1,
                steps > 0,
                2 * (limit * steps) <= lattice::period(),
        ;
    }
}

/// A power-of-two size divides the frequency evenly, where the step it gives
/// fits the format.
pub proof fn lemma_even_step(f: F32, size: u32, z: nat, step: int)
    requires
        size == pow2(z),
        worth_steps(f, size * step),
        math::fits_i32(step),
    ensures
        exact::pixel_step(f, size) == step,
{
    lemma2_to64();
    let (sig, exp) = (f.sig(), f.exp());
    let width = F32 { bits: ieee::nearest_f32(false, size as nat, 0) as u32 };
    if z >= 32 {
        if z > 32 {
            lemma_pow2_strictly_increases(32, z);
        }
    }
    lemma_pow2_unfold((z + 1) as nat);
    ieee::lemma_bit_length_unique(size as nat, z + 1);
    ieee::lemma_nearest_f32_parts(false, size as nat, 0);
    lemma_width(z);
    assert(width.sig() == 0x80_0000 && width.exp() == z - 23);
    let w = ieee::magnitude(size * step);
    let n = ieee::magnitude(step);
    assert(w == size * n) by (nonlinear_arith)
        requires
            w == if size * step < 0 { -(size * step) } else { size * step },
            n == if step < 0 { -step } else { step },
            size >= 0,
    ;
    if sig == 0 {
        lemma_pow2_pos(122);
        assert(0 * pow2((exp + 149) as nat) == 0) by (nonlinear_arith);
        assert(n == 0) by (nonlinear_arith)
            requires
                (size * n) * pow2(122) == 0,
                pow2(122) > 0,
                size > 0,
                n >= 0,
        ;
    } else {
        let len = ieee::bit_length(sig);
        let (q, e) = ieee::quotient(sig, 0x80_0000, 24);
        lemma_even_quotient(sig);
        assert(e == len - 47);
        let c = (24 - len) as nat;
        let scale = e + exp - width.exp() + 27;
        // q * 2^scale = sig * 2^(exp + 27 - z)
        let x = (exp + 149) as nat;
        lemma_pow2_adds(z, 122);
        assert(sig * pow2(x) == n * pow2(z + 122)) by (nonlinear_arith)
            requires
                sig * pow2(x) == (size * n) * pow2(122),
                size == pow2(z),
                pow2(z + 122) == pow2(z) * pow2(122),
        ;
        if scale >= 0 {
            let u = scale as nat;
            // c + u = exp + 27 - z, so x = c + u + z + 122
            lemma_pow2_adds(c, u);
            lemma_pow2_adds(c + u, z + 122);
            lemma_pow2_pos(z + 122);
            let r = q * pow2(u);
            assert(r * pow2(z + 122) == n * pow2(z + 122)) by (nonlinear_arith)
                requires
                    r == q * pow2(u),
                    q == sig * pow2(c),
                    pow2(c + u) == pow2(c) * pow2(u),
                    pow2(x) == pow2(c + u) * pow2(z + 122),
                    sig * pow2(x) == n * pow2(z + 122),
            ;
            lemma_cancel(r as int, n as int, pow2(z + 122) as int);
        } else {
            let u = (-scale) as nat;
            // x + u = c + z + 122
            lemma_pow2_adds(x, u);
            lemma_pow2_adds(c, z + 122);
            lemma_pow2_pos(z + 122);
            lemma_pow2_pos(u);
            assert(q * pow2(z + 122) == (n * pow2(u)) * pow2(z + 122)) by (nonlinear_arith)
                requires
                    q == sig * pow2(c),
                    sig * pow2(x) == n * pow2(z + 122),
                    pow2(x + u) == pow2(x) * pow2(u),
                    pow2(x + u) == pow2(c) * pow2(z + 122),
            ;
            lemma_cancel(q as int, (n * pow2(u)) as int, pow2(z + 122) as int);
            lemma_fundamental_div_mod_converse(q as int, pow2(u) as int, n as int, 0);
        }
        assert(ieee::floor_scaled(q, scale) == n);
        if step != 0 {
            assert(size * step < 0 <==> step < 0) by (nonlinear_arith)
                requires
                    size > 0,
            ;
            assert(size * step != 0) by (nonlinear_arith)
                requires
                    size > 0,
                    step != 0,
            ;
        }
    }
}

/// A power of two has the significand 2^23.
proof fn lemma_width(z: nat)
    requires
        z < 32,
    ensures
        ieee::bit_length(pow2(z)) == z + 1,
        ieee::significand(pow2(z), 24) == 0x80_0000,
{
    lemma2_to64();
    lemma_pow2_unfold((z + 1) as nat);
    lemma_pow2_pos(z);
    ieee::lemma_bit_length_unique(pow2(z), z + 1);
    if z + 1 <= 24 {
        lemma_pow2_adds(z, (23 - z) as nat);
    } else {
        let k = (z - 23) as nat;
        lemma_pow2_adds(23, k);
        lemma_pow2_pos(k);
        lemma_fundamental_div_mod_converse(pow2(z) as int, pow2(k) as int, 0x80_0000, 0);
        ieee::lemma_nearest_even(pow2(z), pow2(k));
    }
}

/// Dividing by 2^23 leaves every digit of a significand.
proof fn lemma_even_quotient(sig: nat)
    requires
        0 < sig < 0x100_0000,
    ensures
        ieee::bit_length(sig) <= 24,
        ieee::quotient(sig, 0x80_0000, 24) == (
            (sig * pow2((24 - ieee::bit_length(sig)) as nat)) as nat,
            ieee::bit_length(sig) - 47,
        ),
{
    lemma2_to64();
    lemma2_to64_rest();
    let len = ieee::bit_length(sig);
    ieee::lemma_bit_length_below(sig, 24);
    ieee::lemma_bit_length(sig);
    ieee::lemma_bit_length_unique(0x80_0000, 24);
    let num = sig * pow2(48);
    lemma_pow2_adds(25, 23);
    let n = sig * pow2(25);
    assert(num == 0x80_0000 * n) by (nonlinear_arith)
        requires
            num == sig * pow2(48),
            n == sig * pow2(25),
            pow2(48) == pow2(25) * 0x80_0000,
    ;
    lemma_div_multiples_vanish(n as int, 0x80_0000);
    // n has 25 digits more than the significand.
    lemma_pow2_adds((len - 1) as nat, 25);
    lemma_pow2_adds(len, 25);
    assert(pow2((len - 1 + 25) as nat) <= n < pow2(len + 25)) by (nonlinear_arith)
        requires
            pow2((len - 1) as nat) <= sig < pow2(len),
            n == sig * pow2(25),
            pow2((len - 1 + 25) as nat) == pow2((len - 1) as nat) * pow2(25),
            pow2(len + 25) == pow2(len) * pow2(25),
            pow2(25) > 0,
    ;
    ieee::lemma_bit_length_unique(n, len + 25);
    let k = len + 1;
    let den = 0x80_0000nat * pow2(k);
    lemma_pow2_adds(23, k);
    lemma_pow2_adds((24 - len) as nat, 24 + len);
    lemma_pow2_pos(24 + len);
    let q = sig * pow2((24 - len) as nat);
    assert(num == q * den) by (nonlinear_arith)
        requires
            num == sig * pow2(48),
            q == sig * pow2((24 - len) as nat),
            pow2(48) == pow2((24 - len) as nat) * pow2(24 + len),
            den == pow2(24 + len),
    ;
    lemma_fundamental_div_mod_converse(num as int, den as int, q as int, 0);
    ieee::lemma_nearest_even(num, den);
}

} // verus!
