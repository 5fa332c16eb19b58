use tilekiln::fixed::{fractal_norm, from_f32, isqrt64, mul, recip, sqrt, to_f32, ONE, SHIFT};
use tilekiln::ieee::F32;

fn single(v: f32) -> F32 {
    F32 { bits: v.to_bits() }
}

fn float(v: F32) -> f32 {
    f32::from_bits(v.bits)
}

#[test]
fn one_is_one() {
    assert_eq!(float(to_f32(ONE)), 1.0);
    assert_eq!(from_f32(single(1.0)), ONE);
    assert_eq!(mul(ONE, ONE), ONE);
    assert_eq!(mul(ONE, -ONE), -ONE);
}

#[test]
fn multiplication_is_exactly_the_truncated_product() {
    let cases = [
        0,
        1,
        -1,
        7,
        ONE,
        -ONE,
        ONE - 1,
        ONE / 3,
        3 * ONE,
        -15 * ONE,
        123_456_789,
    ];
    for &a in &cases {
        for &b in &cases {
            let want = ((a as i64 * b as i64) / ONE as i64) as i32;
            assert_eq!(mul(a, b), want, "mul({a}, {b})");
        }
    }
}

#[test]
fn multiplication_tracks_the_real_product() {
    for &a in &[0.0f64, 0.25, -0.5, 1.0, -1.0, 3.75, -15.5, 0.1234] {
        for &b in &[0.0f64, 0.5, -0.75, 1.0, 2.0, -3.0, 0.987] {
            if (a * b).abs() >= 16.0 {
                continue;
            }
            let (af, bf) = (a as f32 as f64, b as f32 as f64);
            let got = mul(from_f32(single(a as f32)), from_f32(single(b as f32))) as f64;
            let want = af * bf * ONE as f64;
            let bound = af.abs() + bf.abs() + 2.0;
            assert!(
                (got - want).abs() <= bound,
                "{af} * {bf}: {got} raw, want {want:.1}, off by more than {bound:.1} steps"
            );
        }
    }
}

#[test]
fn multiplication_is_sign_symmetric() {
    for a in [1, 7, 12345, ONE, ONE - 1, 3 * ONE] {
        for b in [1, 3, 99999, ONE, ONE / 3] {
            assert_eq!(mul(a, b), -mul(-a, b));
            assert_eq!(mul(a, b), -mul(a, -b));
            assert_eq!(mul(a, b), mul(-a, -b));
        }
    }
}

#[test]
fn multiplication_wraps_past_the_format() {
    assert_eq!(mul(i32::MIN, i32::MIN), 0);
    assert_eq!(mul(i32::MIN, ONE), i32::MIN);
    assert_eq!(mul(8 * ONE, 2 * ONE), i32::MIN);
    assert_eq!(mul(8 * ONE, -2 * ONE), i32::MIN);
    assert_eq!(mul(i32::MAX, i32::MAX), ((i32::MAX as i64 * i32::MAX as i64) / ONE as i64) as i32);
}

#[test]
fn multiplication_commutes() {
    for a in [-ONE / 3, 17, 5 * ONE + 1, i32::MIN] {
        for b in [ONE / 7, -3, i32::MAX] {
            assert_eq!(mul(a, b), mul(b, a));
        }
    }
}

#[test]
fn square_root_is_exact_on_squares() {
    for v in [0, 1, 2, 3] {
        let x = v * ONE;
        assert_eq!(sqrt(mul(x, x)), x, "sqrt of {v} squared");
    }
    for x in [ONE / 2, ONE / 4, 3 * ONE / 2] {
        assert_eq!(sqrt(mul(x, x)), x, "sqrt of ({x} / 2^27) squared");
    }
}

#[test]
fn square_root_is_the_exact_floor_of_the_real_root() {
    for &v in &[
        0,
        1,
        2,
        3,
        12345,
        ONE / 4,
        ONE,
        2 * ONE,
        8 * ONE,
        15 * ONE + 7,
    ] {
        let r = sqrt(v) as u128;
        let n = (v as u128) << SHIFT;
        assert!(r * r <= n, "sqrt({v}) = {r} is too large");
        assert!((r + 1) * (r + 1) > n, "sqrt({v}) = {r} is too small");
    }
}

#[test]
fn isqrt_matches_the_reference_at_the_boundaries() {
    for k in [0u64, 1, 2, 3, 65535, 65536, 1 << 20, (1u64 << 28) - 1] {
        let sq = k * k;
        assert_eq!(isqrt64(sq), k, "isqrt of {k}^2");
        if sq > 0 {
            assert_eq!(isqrt64(sq - 1), k - 1, "isqrt of {k}^2 - 1");
        }
        assert_eq!(isqrt64(sq + 2 * k), k, "isqrt just below {}^2", k + 1);
    }
}

#[test]
fn isqrt_reaches_the_top_of_the_range() {
    assert_eq!(isqrt64(u64::MAX), 0xffff_ffff);
    assert_eq!(isqrt64(0xffff_ffff * 0xffff_ffff), 0xffff_ffff);
    assert_eq!(isqrt64(0xffff_ffff * 0xffff_ffff - 1), 0xffff_fffe);
}

#[test]
fn the_fractal_norm_matches_the_accumulation_it_stands_for() {
    assert_eq!(fractal_norm(1), ONE);
    assert_eq!(fractal_norm(2), ONE + ONE / 2);
    assert_eq!(fractal_norm(3), ONE + ONE / 2 + ONE / 4);
    assert!(fractal_norm(20) < 2 * ONE);
}

#[test]
fn the_fractal_norm_runs_out_of_bits() {
    assert_eq!(fractal_norm(0), ONE);
    assert_eq!(fractal_norm(28), 2 * ONE - 1);
    assert_eq!(fractal_norm(29), 2 * ONE - 1);
    assert_eq!(fractal_norm(1000), 2 * ONE - 1);
}

#[test]
fn reciprocal_undoes_multiplication() {
    for n in 1..=8u32 {
        let norm = fractal_norm(n);
        let r = recip(norm);
        let back = mul(norm, r);
        assert!(
            (back - ONE).abs() <= 2,
            "octaves {n}: norm * recip = {back}, want {ONE}"
        );
    }
}

#[test]
fn reciprocals_of_known_values() {
    assert_eq!(recip(ONE), ONE);
    assert_eq!(recip(2 * ONE), ONE / 2);
    assert_eq!(recip(ONE / 2), 2 * ONE);
    assert_eq!(recip(3 * ONE), ONE / 3);
    // Too large for the format: 2^54 modulo 2^32.
    assert_eq!(recip(1), 0);
}

#[test]
fn conversion_from_binary32_truncates_and_saturates() {
    assert_eq!(from_f32(single(0.0)), 0);
    assert_eq!(from_f32(single(-0.0)), 0);
    assert_eq!(from_f32(single(16.0)), i32::MAX);
    assert_eq!(from_f32(single(1e30)), i32::MAX);
    assert_eq!(from_f32(single(f32::INFINITY)), i32::MAX);
    assert_eq!(from_f32(single(-16.0)), i32::MIN);
    assert_eq!(from_f32(single(-1e30)), i32::MIN);
    assert_eq!(from_f32(single(f32::NEG_INFINITY)), i32::MIN);
    assert_eq!(from_f32(single(f32::NAN)), 0);
    assert_eq!(from_f32(single(f32::MIN_POSITIVE)), 0);
    assert_eq!(from_f32(single(1e-45)), 0);
    assert_eq!(from_f32(single(0.3)), 40_265_320);
    assert_eq!(from_f32(single(-0.3)), -40_265_320);
}

#[test]
fn conversions_agree_with_the_hardware() {
    let mut x = 12345u32;
    for _ in 0..200_000 {
        x = x.wrapping_mul(1_664_525).wrapping_add(1_013_904_223);
        let v = f32::from_bits(x);
        let scaled = v as f64 * ONE as f64;
        let want = if scaled >= i32::MAX as f64 {
            i32::MAX
        } else if scaled <= i32::MIN as f64 {
            i32::MIN
        } else {
            scaled as i32
        };
        assert_eq!(from_f32(single(v)), want, "from {v}");
        let n = x as i32;
        for n in [n, n >> 7, n >> 20] {
            assert_eq!(float(to_f32(n)).to_bits(), (n as f32 / ONE as f32).to_bits(), "to {n}");
        }
    }
    for n in [0, 1, -1, i32::MAX, i32::MIN, ONE, ONE - 1, ONE + 1, 0x0fff_ffff, 0x01ff_ffff] {
        assert_eq!(float(to_f32(n)).to_bits(), (n as f32 / ONE as f32).to_bits(), "to {n}");
    }
}

#[test]
fn short_numbers_survive_the_way_to_binary32_and_back() {
    for v in [0, 1, -1, 0xff_ffff, -0xff_ffff, 0x7fff_ff80, ONE, -ONE, 3 * ONE / 2, i32::MIN] {
        assert_eq!(from_f32(to_f32(v)), v);
    }
}
