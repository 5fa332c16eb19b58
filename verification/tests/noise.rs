use tilekiln::exact::{fbm, gradient2, smootherstep, value2, worley2, Lat};
use tilekiln::fixed::{fractal_norm, from_f32, recip, to_f32, Fx, ONE};
use tilekiln::hash::{hash2, hash3, signed_f32};
use tilekiln::ieee::{F32, F64};
use tilekiln::Basis;

fn split(v: f64) -> Lat {
    Lat::split(F64 { bits: v.to_bits() })
}

fn fixed(v: f32) -> Fx {
    from_f32(F32 { bits: v.to_bits() })
}

fn float(v: Fx) -> f32 {
    f32::from_bits(to_f32(v).bits)
}

#[test]
fn smootherstep_pins_its_endpoints() {
    assert_eq!(float(smootherstep(fixed(0.0))), 0.0);
    assert_eq!(float(smootherstep(fixed(1.0))), 1.0);
    assert!((float(smootherstep(fixed(0.5))) - 0.5).abs() < 1e-6);
}

#[test]
fn gradient_noise_vanishes_on_the_lattice() {
    for i in -5..5 {
        for j in -5..5 {
            let v = float(gradient2(split(i as f64), split(j as f64), 7));
            assert!(v.abs() < 1e-6, "expected 0 at ({i}, {j}), got {v}");
        }
    }
}

#[test]
fn noise_stays_in_a_sane_range() {
    let mut lo = f32::MAX;
    let mut hi = f32::MIN;
    let norm = recip(fractal_norm(4));
    for i in 0..20_000 {
        let x = i as f64 * 0.0137;
        let y = i as f64 * 0.0271;
        let v = float(fbm(Basis::Gradient, split(x), split(y), 4, 1, norm));
        lo = lo.min(v);
        hi = hi.max(v);
    }
    assert!(
        lo > -1.5 && hi < 1.5,
        "fbm range [{lo}, {hi}] is wider than expected"
    );
}

#[test]
fn evaluation_is_addressable_not_sequential() {
    let norm = recip(fractal_norm(4));
    let at = || {
        let (x, y) = (split(1_000_000.5), split(-4_000_000.25));
        float(fbm(Basis::Gradient, x, y, 4, 3, norm))
    };
    let a = at();
    let b = at();
    assert_eq!(a.to_bits(), b.to_bits());
}

#[test]
fn worley_is_non_negative() {
    for i in 0..5_000 {
        let x = i as f64 * 0.017;
        let v = float(worley2(split(x), split(x * 0.3), 11));
        assert!(v >= 0.0, "distance {v} is negative");
    }
}

#[test]
fn value_noise_passes_through_the_hashed_values() {
    for i in -5..5 {
        for j in -5..5 {
            let v = value2(split(i as f64), split(j as f64), 7);
            assert_eq!(to_f32(v), signed_f32(hash2(i, j, 7)));
        }
    }
}

#[test]
fn noise_tracks_real_arithmetic() {
    let quintic = |t: f64| t * t * t * (t * (t * 6.0 - 15.0) + 10.0);
    let value = |x: i32, y: i32| f32::from_bits(signed_f32(hash2(x, y, 5)).bits) as f64;
    for i in 0..500 {
        let (x, y) = (i as f64 * 0.173 - 40.0, i as f64 * -0.219 + 3.0);
        let (ix, iy) = (x.floor(), y.floor());
        let (u, v) = (quintic(x - ix), quintic(y - iy));
        let (ix, iy) = (ix as i32, iy as i32);
        let near = value(ix, iy) + u * (value(ix + 1, iy) - value(ix, iy));
        let far = value(ix, iy + 1) + u * (value(ix + 1, iy + 1) - value(ix, iy + 1));
        let want = near + v * (far - near);
        let got = value2(split(x), split(y), 5) as f64 / ONE as f64;
        assert!((got - want).abs() < 1e-6, "({x}, {y}): {got} for {want}");
    }
}

#[test]
fn worley_finds_the_nearest_of_the_nine_points() {
    let unit = |h: u32| f32::from_bits(signed_f32(h).bits) as f64 * 0.5 + 0.5;
    for i in 0..500 {
        let (x, y) = (i as f64 * 0.173 - 40.0, i as f64 * -0.219 + 3.0);
        let (ix, iy) = (x.floor() as i32, y.floor() as i32);
        let mut best = f64::MAX;
        for cy in iy - 1..=iy + 1 {
            for cx in ix - 1..=ix + 1 {
                let dx = cx as f64 + unit(hash2(cx, cy, 5)) - x;
                let dy = cy as f64 + unit(hash3(cx, cy, 1, 5)) - y;
                best = best.min(dx * dx + dy * dy);
            }
        }
        let got = worley2(split(x), split(y), 5) as f64 / ONE as f64;
        assert!((got - best.sqrt()).abs() < 1e-5, "({x}, {y}): {got} for {}", best.sqrt());
    }
}
