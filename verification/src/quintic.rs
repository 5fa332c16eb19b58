//! The interpolating polynomial `6t^5 - 15t^4 + 10t^3`, over the integers.

use vstd::prelude::*;

verus! {

/// The polynomial at `t / s`, times `s^5`.
pub open spec fn quintic(t: int, s: int) -> int {
    t * t * t * (6 * t * t - 15 * t * s + 10 * s * s)
}

/// The polynomial in powers of `t` and of the distance `d` to the far end.
proof fn lemma_quintic_parts(t: int, d: int, dd: int, dt: int, tt: int)
    requires
        dd == d * d,
        dt == d * t,
        tt == t * t,
    ensures
        quintic(t, d + t) == (t * tt) * (10 * dd + 5 * dt + tt),
        (d + t) * (d + t) == dd + 2 * dt + tt,
{
    let s = d + t;
    assert(s * s == dd + 2 * dt + tt) by (nonlinear_arith)
        requires
            s == d + t,
            dd == d * d,
            dt == d * t,
            tt == t * t,
    ;
    assert(t * s == dt + tt) by (nonlinear_arith)
        requires
            s == d + t,
            dt == d * t,
            tt == t * t,
    ;
    assert(6 * t * t == 6 * tt) by (nonlinear_arith)
        requires
            tt == t * t,
    ;
    assert(15 * t * s == 15 * (t * s)) by (nonlinear_arith);
    assert(10 * s * s == 10 * (s * s)) by (nonlinear_arith);
    assert(t * t * t == t * tt) by (nonlinear_arith)
        requires
            tt == t * t,
    ;
}

/// The polynomial is symmetric about the middle: its values at two points
/// equally far from the two ends add up to one.
pub proof fn lemma_quintic_symmetric(t: int, s: int)
    ensures
        quintic(t, s) + quintic(s - t, s) == s * s * s * s * s,
{
    let d = s - t;
    let (dd, dt, tt) = (d * d, d * t, t * t);
    assert(t * d == dt) by (nonlinear_arith)
        requires
            dt == d * t,
    ;
    lemma_quintic_parts(t, d, dd, dt, tt);
    lemma_quintic_parts(d, t, tt, dt, dd);
    let (d3, t3) = (d * dd, t * tt);
    let (ddt, dtt) = (d * dt, d * tt);
    assert(ddt == t * dd && dtt == t * dt) by (nonlinear_arith)
        requires
            ddt == d * dt,
            dtt == d * tt,
            dd == d * d,
            dt == d * t,
            tt == t * t,
    ;
    let square = dd + 2 * dt + tt;
    let cube = d3 + 3 * ddt + 3 * dtt + t3;
    lemma_times_three(d, dd, 2, dt, 1, tt);
    lemma_times_three(t, dd, 2, dt, 1, tt);
    assert(s * square == d * square + t * square) by (nonlinear_arith)
        requires
            s == d + t,
    ;
    assert(s * square == cube);
    lemma_binomial(d, t, dd, dt, tt, d3, ddt, dtt, t3);
    assert(s * s * s * s * s == (s * (s * s)) * (s * s)) by (nonlinear_arith);
}

/// The fifth power of `d + t`, as the cube times the square and as the two
/// halves of the binomial expansion.
proof fn lemma_binomial(
    d: int,
    t: int,
    dd: int,
    dt: int,
    tt: int,
    d3: int,
    ddt: int,
    dtt: int,
    t3: int,
)
    requires
        dd == d * d,
        dt == d * t,
        tt == t * t,
        d3 == d * dd,
        ddt == d * dt,
        dtt == d * tt,
        t3 == t * tt,
    ensures
        (d3 + 3 * ddt + 3 * dtt + t3) * (dd + 2 * dt + tt) == d3 * (10 * tt + 5 * dt + dd) + t3 * (
        10 * dd + 5 * dt + tt),
        d3 * tt == ddt * dt,
        t3 * dd == dtt * dt,
{
    // The products that occur in two forms.
    assert(ddt * dd == d3 * dt) by (nonlinear_arith)
        requires
            ddt == d * dt,
            d3 == d * dd,
    ;
    assert(ddt * dt == d3 * tt) by (nonlinear_arith)
        requires
            dd == d * d,
            dt == d * t,
            tt == t * t,
            ddt == d * dt,
            d3 == d * dd,
    ;
    assert(dtt * dd == d3 * tt) by (nonlinear_arith)
        requires
            dtt == d * tt,
            d3 == d * dd,
    ;
    assert(ddt * tt == t3 * dd) by (nonlinear_arith)
        requires
            dd == d * d,
            dt == d * t,
            tt == t * t,
            ddt == d * dt,
            t3 == t * tt,
    ;
    assert(dtt * dt == t3 * dd) by (nonlinear_arith)
        requires
            dd == d * d,
            dt == d * t,
            tt == t * t,
            dtt == d * tt,
            t3 == t * tt,
    ;
    assert(dtt * tt == t3 * dt) by (nonlinear_arith)
        requires
            dt == d * t,
            tt == t * t,
            dtt == d * tt,
            t3 == t * tt,
    ;
    let square = dd + 2 * dt + tt;
    assert((d3 + 3 * ddt + 3 * dtt + t3) * square == d3 * square + 3 * (ddt * square) + 3 * (dtt
        * square) + t3 * square) by (nonlinear_arith);
    lemma_times_three(d3, dd, 2, dt, 1, tt);
    lemma_times_three(ddt, dd, 2, dt, 1, tt);
    lemma_times_three(dtt, dd, 2, dt, 1, tt);
    lemma_times_three(t3, dd, 2, dt, 1, tt);
    lemma_times_three(d3, dd, 5, dt, 10, tt);
    lemma_times_three(t3, tt, 5, dt, 10, dd);
}

/// Multiplication distributes over a sum of three.
proof fn lemma_times_three(x: int, a: int, m: int, b: int, n: int, c: int)
    ensures
        x * (a + m * b + n * c) == x * a + m * (x * b) + n * (x * c),
{
    vstd::arithmetic::mul::lemma_mul_is_distributive_add(x, a + m * b, n * c);
    vstd::arithmetic::mul::lemma_mul_is_distributive_add(x, a, m * b);
    assert(x * (m * b) == m * (x * b) && x * (n * c) == n * (x * c)) by (nonlinear_arith);
}

/// The polynomial runs from zero to one on the unit interval.
pub proof fn lemma_quintic_in_unit(t: int, s: int)
    requires
        0 <= t <= s,
    ensures
        0 <= quintic(t, s) <= s * s * s * s * s,
{
    lemma_quintic_nonnegative(t, s);
    lemma_quintic_nonnegative(s - t, s);
    lemma_quintic_symmetric(t, s);
}

proof fn lemma_quintic_nonnegative(t: int, s: int)
    requires
        0 <= t <= s,
    ensures
        0 <= quintic(t, s),
{
    let d = s - t;
    let (dd, dt, tt) = (d * d, d * t, t * t);
    lemma_quintic_parts(t, d, dd, dt, tt);
    assert(dd >= 0 && dt >= 0 && tt >= 0) by (nonlinear_arith)
        requires
            d >= 0,
            t >= 0,
            dd == d * d,
            dt == d * t,
            tt == t * t,
    ;
    let t3 = t * tt;
    assert(t3 >= 0) by (nonlinear_arith)
        requires
            t >= 0,
            tt >= 0,
            t3 == t * tt,
    ;
    let factor = 10 * dd + 5 * dt + tt;
    assert(t3 * factor >= 0) by (nonlinear_arith)
        requires
            t3 >= 0,
            factor >= 0,
    ;
}

/// Up to the middle the polynomial is at most one half, and from there on it
/// is at least one half.
pub proof fn lemma_quintic_halves(t: int, s: int)
    requires
        0 <= t <= s,
    ensures
        2 * t <= s ==> 2 * quintic(t, s) <= s * s * s * s * s,
        2 * t >= s ==> 2 * quintic(t, s) >= s * s * s * s * s,
{
    lemma_quintic_symmetric(t, s);
    if 2 * t <= s {
        lemma_quintic_ordered(t, s - t);
    }
    if 2 * t >= s {
        lemma_quintic_ordered(s - t, t);
    }
}

/// The nearer of two points equally far from the two ends has the smaller
/// value.
proof fn lemma_quintic_ordered(t: int, d: int)
    requires
        0 <= t <= d,
    ensures
        quintic(t, d + t) <= quintic(d, d + t),
{
    let (dd, dt, tt) = (d * d, d * t, t * t);
    assert(t * d == dt) by (nonlinear_arith)
        requires
            dt == d * t,
    ;
    lemma_quintic_parts(t, d, dd, dt, tt);
    lemma_quintic_parts(d, t, tt, dt, dd);
    let (d3, t3) = (d * dd, t * tt);
    let (ddt, dtt) = (d * dt, d * tt);
    lemma_binomial(d, t, dd, dt, tt, d3, ddt, dtt, t3);
    assert(0 <= tt <= dt && dt <= dd) by (nonlinear_arith)
        requires
            0 <= t <= d,
            dd == d * d,
            dt == d * t,
            tt == t * t,
    ;
    assert(0 <= t3 <= d3) by (nonlinear_arith)
        requires
            0 <= t <= d,
            0 <= tt <= dd,
            t3 == t * tt,
            d3 == d * dd,
    ;
    assert(dtt <= ddt) by (nonlinear_arith)
        requires
            0 <= d,
            tt <= dt,
            ddt == d * dt,
            dtt == d * tt,
    ;
    assert(dtt * dt <= ddt * dt) by (nonlinear_arith)
        requires
            dtt <= ddt,
            0 <= dt,
    ;
    assert(t3 * dt <= d3 * dt) by (nonlinear_arith)
        requires
            t3 <= d3,
            0 <= dt,
    ;
    assert(t3 * tt <= d3 * dd) by (nonlinear_arith)
        requires
            0 <= t3 <= d3,
            0 <= tt <= dd,
    ;
    lemma_times_three(d3, dd, 5, dt, 10, tt);
    lemma_times_three(t3, tt, 5, dt, 10, dd);
}

/// What the polynomial gains in a step, with `d` steps left after it.
pub open spec fn quintic_gain(t: int, d: int) -> int {
    let (tt, dd, td) = (t * t, d * d, t * d);
    30 * (td * td) + 30 * (t * td) + 30 * (d * td) + 10 * tt + 10 * dd + 20 * td + 5 * t + 5 * d
        + 1
}

proof fn lemma_quintic_gain(t: int, d: int)
    ensures
        quintic(t + 1, t + d + 1) - quintic(t, t + d + 1) == quintic_gain(t, d),
{
    let (tt, dd, td) = (t * t, d * d, t * d);
    let s = t + d + 1;
    let u = t + 1;
    let e = d + 1;
    assert(e * e == dd + 2 * d + 1 && e * t == td + t) by (nonlinear_arith)
        requires
            e == d + 1,
            dd == d * d,
            td == t * d,
    ;
    assert(u * u == tt + 2 * t + 1 && d * u == td + d) by (nonlinear_arith)
        requires
            u == t + 1,
            tt == t * t,
            td == t * d,
    ;
    lemma_quintic_parts(t, e, dd + 2 * d + 1, td + t, tt);
    lemma_quintic_parts(u, d, dd, td + d, tt + 2 * t + 1);
    let t3 = t * tt;
    let u3 = t3 + 3 * tt + 3 * t + 1;
    assert(u * (tt + 2 * t + 1) == u3) by (nonlinear_arith)
        requires
            u == t + 1,
            tt == t * t,
            t3 == t * tt,
            u3 == t3 + 3 * tt + 3 * t + 1,
    ;
    let near = 10 * dd + 20 * d + 10 + 5 * td + 5 * t + tt;
    let far = 10 * dd + 5 * td + 5 * d + tt + 2 * t + 1;
    assert(quintic(t, s) == t3 * near);
    assert(quintic(u, s) == u3 * far);
    // The far factor is less than the near one by 15d + 3t + 9.
    let less = 15 * d + 3 * t + 9;
    assert(u3 * far - t3 * near == (3 * tt + 3 * t + 1) * far - t3 * less) by (nonlinear_arith)
        requires
            u3 == t3 + 3 * tt + 3 * t + 1,
            near == far + less,
    ;
    assert((3 * tt + 3 * t + 1) * far == 3 * (tt * far) + 3 * (t * far) + far) by (nonlinear_arith);
    assert(tt * far == 10 * (tt * dd) + 5 * (tt * td) + 5 * (tt * d) + tt * tt + 2 * (tt * t) + tt)
        by (nonlinear_arith)
        requires
            far == 10 * dd + 5 * td + 5 * d + tt + 2 * t + 1,
    ;
    assert(t * far == 10 * (t * dd) + 5 * (t * td) + 5 * (t * d) + t * tt + 2 * (t * t) + t)
        by (nonlinear_arith)
        requires
            far == 10 * dd + 5 * td + 5 * d + tt + 2 * t + 1,
    ;
    assert(t3 * less == 15 * (t3 * d) + 3 * (t3 * t) + 9 * t3) by (nonlinear_arith)
        requires
            less == 15 * d + 3 * t + 9,
    ;
    assert(t3 * d == tt * td && t3 * t == tt * tt) by (nonlinear_arith)
        requires
            t3 == t * tt,
            tt == t * t,
            td == t * d,
    ;
    assert(tt * dd == td * td && tt * d == t * td && t * dd == d * td && tt * t == t3)
        by (nonlinear_arith)
        requires
            t3 == t * tt,
            tt == t * t,
            td == t * d,
            dd == d * d,
    ;
}

/// The polynomial never falls, and rises by at most 30/16 of a step in each:
/// by 30 times the square of half of `s + 1`.
pub proof fn lemma_quintic_step(t: int, s: int)
    requires
        0 <= t < s,
    ensures
        0 <= quintic(t + 1, s) - quintic(t, s),
        16 * (quintic(t + 1, s) - quintic(t, s)) <= 30 * (((s + 1) * (s + 1)) * ((s + 1) * (s
            + 1))),
{
    let d = s - t - 1;
    let (tt, dd, td) = (t * t, d * d, t * d);
    lemma_quintic_gain(t, d);
    let (t_td, d_td) = (t * td, d * td);
    assert(td * td >= 0 && tt >= 0 && dd >= 0) by (nonlinear_arith)
        requires
            tt == t * t,
            dd == d * d,
    ;
    assert(td >= 0) by (nonlinear_arith)
        requires
            td == t * d,
            t >= 0,
            d >= 0,
    ;
    assert(t_td >= 0 && d_td >= 0) by (nonlinear_arith)
        requires
            t_td == t * td,
            d_td == d * td,
            t >= 0,
            d >= 0,
            td >= 0,
    ;
    let p = td + t + d + 1;
    assert(p * p == td * td + 2 * t_td + 2 * d_td + 4 * td + tt + dd + 2 * t + 2 * d + 1)
        by (nonlinear_arith)
        requires
            p == td + t + d + 1,
            tt == t * t,
            dd == d * d,
            td == t * d,
            t_td == t * td,
            d_td == d * td,
    ;
    assert(quintic_gain(t, d) <= 30 * (p * p));
    let w = (s + 1) * (s + 1);
    assert(4 * p <= w) by (nonlinear_arith)
        requires
            p == td + t + d + 1,
            td == t * d,
            w == (s + 1) * (s + 1),
            s == t + d + 1,
    ;
    assert(16 * (p * p) <= w * w) by (nonlinear_arith)
        requires
            4 * p <= w,
            p >= 0,
    ;
}

} // verus!
