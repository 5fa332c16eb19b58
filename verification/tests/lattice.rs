use tilekiln::exact::Lat;
use tilekiln::fixed::ONE;
use tilekiln::ieee::{scale, F32, F64};

fn split(v: f64) -> Lat {
    Lat::split(F64 { bits: v.to_bits() })
}

fn words() -> impl Iterator<Item = u64> {
    let mut state = 0x853c_49e6_748f_ea9bu64;
    std::iter::repeat_with(move || {
        state = state
            .wrapping_mul(6_364_136_223_846_793_005)
            .wrapping_add(1_442_695_040_888_963_407);
        state ^ (state >> 29)
    })
}

#[test]
fn coordinates_split_into_cell_and_offset() {
    assert_eq!(split(0.0), Lat { cell: 0, frac: 0 });
    assert_eq!(split(-0.0), Lat { cell: 0, frac: 0 });
    assert_eq!(split(2.25), Lat { cell: 2, frac: ONE / 4 });
    assert_eq!(split(-2.25), Lat { cell: -3, frac: 3 * (ONE / 4) });
    assert_eq!(split(-1.0), Lat { cell: -1, frac: 0 });
    assert_eq!(split(4_294_967_296.5), Lat { cell: 0, frac: ONE / 2 });
    assert_eq!(split(2_147_483_648.0), Lat { cell: i32::MIN, frac: 0 });
    // Past 2^63 the cell saturates before it wraps.
    assert_eq!(split(1e300), Lat { cell: -1, frac: 0 });
    assert_eq!(split(-1e300), Lat { cell: 0, frac: 0 });
    assert_eq!(split(f64::INFINITY), Lat { cell: -1, frac: 0 });
    assert_eq!(split(f64::NAN), Lat { cell: 0, frac: 0 });
}

#[test]
fn the_offset_stays_below_a_cell() {
    // So little below an integer that the subtraction rounds up to one.
    for v in [-1e-20f64, -f64::MIN_POSITIVE, -5e-324, -5.0e-17] {
        assert_eq!(split(v), Lat { cell: 0, frac: 0 }, "{v:e}");
    }
    // A little further, and it does not.
    assert_eq!(split(-1e-15), Lat { cell: -1, frac: ONE - 1 });
}

#[test]
fn splitting_agrees_with_the_hardware() {
    for (i, w) in words().take(50_000).enumerate() {
        let v = match i % 3 {
            0 => f64::from_bits(w),
            1 => (w as i64 as f64) / (1u64 << (i % 64)) as f64,
            _ => (w >> 40) as f64 * 0.37 - 1000.0,
        };
        let fl = v.floor();
        let frac = ((v - fl) * ONE as f64) as i32;
        if frac == ONE || !v.is_finite() {
            continue;
        }
        let want = Lat {
            cell: fl as i64 as i32,
            frac,
        };
        assert_eq!(split(v), want, "{v:e}");
    }
}

#[test]
fn products_agree_with_the_hardware() {
    for (i, w) in words().take(50_000).enumerate() {
        let x = (w as i64) >> (i % 64);
        let f = f32::from_bits((w >> 32) as u32);
        let want = x as f64 * f as f64;
        let got = f64::from_bits(scale(x, F32 { bits: f.to_bits() }).bits);
        if want.is_nan() {
            assert!(got.is_nan());
        } else {
            assert_eq!(got.to_bits(), want.to_bits(), "{x} * {f:e}");
        }
    }
    for x in [0i64, 1, -1, i64::MAX, i64::MIN, (1 << 53) + 1] {
        for f in [0.0f32, -0.0, 1.5, 1e-45, f32::MAX, f32::INFINITY, f32::NEG_INFINITY] {
            let want = x as f64 * f as f64;
            let got = f64::from_bits(scale(x, F32 { bits: f.to_bits() }).bits);
            assert!(got.to_bits() == want.to_bits() || (got.is_nan() && want.is_nan()));
        }
    }
}

#[test]
fn renormalising_carries_both_ways() {
    let at = |cell: i32, frac: i32| Lat { cell, frac }.renormalise();
    assert_eq!(at(5, -1), Lat { cell: 4, frac: ONE - 1 });
    assert_eq!(at(5, ONE), Lat { cell: 6, frac: 0 });
    assert_eq!(at(5, 3 * ONE + 7), Lat { cell: 8, frac: 7 });
    assert_eq!(at(i32::MAX, ONE), Lat { cell: i32::MIN, frac: 0 });
    assert_eq!(at(0, i32::MIN), Lat { cell: -16, frac: 0 });
    assert_eq!(at(0, i32::MAX), Lat { cell: 15, frac: ONE - 1 });
}

#[test]
fn offsets_and_steps_advance() {
    let l = Lat { cell: 3, frac: ONE / 2 };
    assert_eq!(l.offset(ONE), Lat { cell: 4, frac: ONE / 2 });
    assert_eq!(l.offset(-ONE), Lat { cell: 2, frac: ONE / 2 });
    assert_eq!(l.step(0, 12_345), l);
    assert_eq!(l.step(3, ONE / 2), Lat { cell: 5, frac: 0 });
    assert_eq!(l.step(4, -ONE / 4), Lat { cell: 2, frac: ONE / 2 });
    // A total of far more than 32 bits.
    assert_eq!(l.step(u32::MAX, 15 * ONE).frac, ONE / 2);
    assert_eq!(l.step(u32::MAX, 15 * ONE).cell, 3i32.wrapping_sub(15));
}

#[test]
fn advancing_in_two_moves_is_advancing_by_their_sum() {
    for (i, w) in words().take(2_000).enumerate() {
        let l = Lat {
            cell: w as i32,
            frac: ((w >> 32) as i32).rem_euclid(ONE),
        };
        let step = (w >> 13) as i32;
        let (m, n) = (i as u32, (w >> 50) as u32);
        assert_eq!(l.step(m, step).step(n, step), l.step(m + n, step));
        assert_eq!(l.step(1, step).double(), l.double().step(2, step));
    }
}

#[test]
fn doubling_doubles_the_coordinate() {
    let double = |cell: i32, frac: i32| Lat { cell, frac }.double();
    assert_eq!(double(3, ONE / 4), Lat { cell: 6, frac: ONE / 2 });
    assert_eq!(double(3, 3 * (ONE / 4)), Lat { cell: 7, frac: ONE / 2 });
    assert_eq!(double(-3, ONE / 2), Lat { cell: -5, frac: 0 });
    assert_eq!(double(i32::MIN, 1), Lat { cell: 0, frac: 2 });
}
