use std::collections::BTreeSet;

use tilekiln::exact::{
    basis, fbm, gradient, lerp, ridged, sample, signed, smootherstep, step_between_pixels,
    try_sample, warped, worley2, Lat, Prepared, SEED_STEP, WARP_OFFSETS,
};
use tilekiln::fixed::{fractal_norm, from_f32, mul, recip, to_f32, Fx, ONE};
use tilekiln::hash::hash2;
use tilekiln::ieee::{scale, F32, F64};
use tilekiln::{Basis, Material, Pattern, Tile, TileId};

fn single(v: f32) -> F32 {
    F32 { bits: v.to_bits() }
}

fn float(v: F32) -> f32 {
    f32::from_bits(v.bits)
}

fn split(v: f64) -> Lat {
    Lat::split(F64 { bits: v.to_bits() })
}

fn material() -> Material {
    Material {
        basis: Basis::Gradient,
        pattern: Pattern::Ridged,
        frequency: single(6.0),
        octaves: 5,
        sharpness: 3,
        contrast: single(1.4),
        ..Default::default()
    }
}

fn render(m: &Material, tile: TileId, size: u32) -> Tile {
    m.try_render_tile_exact(tile, size).expect("fits the format")
}

fn distinct(t: &Tile) -> usize {
    t.data.iter().map(|v| v.bits).collect::<BTreeSet<_>>().len()
}

#[test]
fn the_warp_constants_are_the_conversions_they_claim_to_be() {
    for (got, from) in WARP_OFFSETS.iter().zip([5.2f32, 1.3, 1.7, 9.2]) {
        assert_eq!(*got, from_f32(single(from)), "constant for {from}");
    }
}

#[test]
fn output_stays_in_range() {
    for basis in [Basis::Value, Basis::Gradient, Basis::Worley] {
        for pattern in [Pattern::Fractal, Pattern::Ridged, Pattern::Warped] {
            let m = Material {
                basis,
                pattern,
                warp: single(0.8),
                ..material()
            };
            let t = m.render_exact(32);
            assert!(
                t.data.iter().all(|v| (0.0..=1.0).contains(&float(*v))),
                "{basis:?}/{pattern:?} left [0, 1]"
            );
        }
    }
}

#[test]
fn exact_far_tiles_keep_their_detail() {
    let m = material();
    let baseline = distinct(&m.render_tile_exact(TileId::new(0, 0), 24));
    for &t in &[1i64 << 10, 1 << 20, m.max_tile()] {
        let found = distinct(&m.render_tile_exact(TileId::new(t, 0), 24));
        assert!(
            found * 4 >= baseline * 3,
            "tile {t} resolves {found} values against {baseline} at tile 0"
        );
    }
}

#[test]
fn tiles_meet_without_a_seam() {
    let m = material();
    let size = 64;
    let a = m.render_tile_exact(TileId::new(0, 0), size);
    let b = m.render_tile_exact(TileId::new(1, 0), size);

    let across: f32 = (0..size)
        .map(|y| (float(a.get(size - 1, y)) - float(b.get(0, y))).abs())
        .fold(0.0, f32::max);
    let within: f32 = (0..size)
        .map(|y| (float(a.get(size - 2, y)) - float(a.get(size - 1, y))).abs())
        .fold(0.0, f32::max);
    assert!(
        across <= within * 3.0,
        "seam: {across} across the join against {within} within the tile"
    );
}

#[test]
fn the_lattice_step_survives_a_wide_tile() {
    let m = Material {
        frequency: single(15.0),
        ..material()
    };
    let found = distinct(&m.render_exact(512));
    assert!(
        found > 40_000,
        "a 512-wide tile at frequency 15 resolved only {found} values"
    );
}

#[test]
fn hashed_values_take_the_top_bits() {
    assert_eq!(signed(0), -ONE);
    assert_eq!(signed(511), -ONE);
    assert_eq!(signed(512), -ONE + 32);
    assert_eq!(signed(0x8000_0000), 0);
    assert_eq!(signed(u32::MAX), ONE - 32);
}

#[test]
fn gradients_are_the_axes_and_the_diagonals() {
    let all: Vec<(Fx, Fx)> = (0..8).map(gradient).collect();
    assert_eq!(
        all,
        vec![
            (ONE, 0),
            (-ONE, 0),
            (0, ONE),
            (0, -ONE),
            (ONE, ONE),
            (-ONE, ONE),
            (ONE, -ONE),
            (-ONE, -ONE)
        ]
    );
    assert_eq!(gradient(13), gradient(5));
}

#[test]
fn interpolation_reaches_both_ends() {
    assert_eq!(lerp(3, 1003, 0), 3);
    assert_eq!(lerp(3, 1003, ONE), 1003);
    assert_eq!(lerp(1003, 3, ONE / 2), 503);
    assert_eq!(lerp(-ONE, ONE, ONE / 4), -ONE / 2);
}

#[test]
fn the_interpolant_follows_the_polynomial() {
    for i in 0..=1000 {
        let t = (ONE as i64 * i / 1000) as Fx;
        let x = t as f64 / ONE as f64;
        let want = x * x * x * (x * (x * 6.0 - 15.0) + 10.0) * ONE as f64;
        let got = smootherstep(t) as f64;
        assert!(got <= want + 1.0 && got > want - 21.0, "{i}: {got} for {want}");
    }
}

#[test]
fn one_octave_is_the_basis_itself() {
    for b in [Basis::Value, Basis::Gradient, Basis::Worley] {
        for i in 0..50 {
            let (lx, ly) = (split(i as f64 * 0.37), split(i as f64 * -0.91));
            let want = basis(b, lx, ly, 9);
            assert_eq!(fbm(b, lx, ly, 1, 9, ONE), want);
            assert_eq!(fbm(b, lx, ly, 0, 9, ONE), want);
            assert_eq!(ridged(b, lx, ly, 1, 1, 9, ONE), ONE - want.abs());
        }
    }
    let l = split(2.25);
    assert_eq!(
        basis(Basis::Worley, l, l, 4),
        worley2(l, l, 4) * 2 - ONE,
        "cellular noise is recentred"
    );
}

#[test]
fn octaves_double_and_halve() {
    let (lx, ly) = (split(1.375), split(-2.625));
    let norm = recip(fractal_norm(2));
    let first = basis(Basis::Gradient, lx, ly, 5);
    let second = basis(
        Basis::Gradient,
        lx.double(),
        ly.double(),
        5u32.wrapping_add(SEED_STEP),
    );
    assert_eq!(
        fbm(Basis::Gradient, lx, ly, 2, 5, norm),
        mul(first + mul(ONE / 2, second), norm)
    );
    let ridge = |v: Fx| ONE - v.abs();
    let (r1, r2) = (ridge(first), ridge(second));
    assert_eq!(
        ridged(Basis::Gradient, lx, ly, 2, 3, 5, norm),
        mul(
            mul(mul(r1, r1), r1) + mul(ONE / 2, mul(mul(r2, r2), r2)),
            norm
        )
    );
}

#[test]
fn a_warp_of_zero_is_the_plain_sum() {
    let m = Material {
        pattern: Pattern::Warped,
        ..Default::default()
    };
    let p = Prepared::new(&m);
    for i in 0..50 {
        let (lx, ly) = (split(i as f64 * 0.53), split(i as f64 * 0.19));
        assert_eq!(
            warped(&p, lx, ly),
            fbm(p.basis, lx, ly, p.octaves, p.seed, p.recip)
        );
    }
}

#[test]
fn a_warp_displaces_the_domain() {
    let m = Material {
        pattern: Pattern::Warped,
        warp: single(0.75),
        seed: 17,
        ..Default::default()
    };
    let p = Prepared::new(&m);
    let (lx, ly) = (split(3.125), split(-8.5));
    let field = |x: Fx, y: Fx, seed: u32| {
        fbm(Basis::Value, lx.offset(x), ly.offset(y), 2, seed, p.recip2)
    };
    let wx = field(WARP_OFFSETS[0], WARP_OFFSETS[1], 17 ^ 0x5f35_6495);
    let wy = field(WARP_OFFSETS[2], WARP_OFFSETS[3], 17 ^ 0x3c6e_f372);
    let want = fbm(
        p.basis,
        lx.offset(mul(p.warp, wx)),
        ly.offset(mul(p.warp, wy)),
        p.octaves,
        17,
        p.recip,
    );
    assert_eq!(warped(&p, lx, ly), want);
    assert_ne!(want, fbm(p.basis, lx, ly, p.octaves, 17, p.recip));
}

#[test]
fn preparing_a_material_converts_its_knobs() {
    let m = Material {
        octaves: 0,
        sharpness: 0,
        warp: single(0.5),
        contrast: single(-2.0),
        pivot: single(100.0),
        seed: 3,
        ..Default::default()
    };
    let p = Prepared::new(&m);
    assert_eq!((p.octaves, p.sharpness, p.seed), (1, 1, 3));
    assert_eq!((p.warp, p.contrast, p.pivot), (ONE / 2, -2 * ONE, i32::MAX));
    assert_eq!((p.recip, p.recip2), (ONE, 89_478_485));
    assert_eq!((p.basis, p.pattern), (Basis::Gradient, Pattern::Fractal));
}

#[test]
fn a_sample_is_the_remapped_lightness() {
    let m = Material {
        contrast: single(1.0),
        pivot: single(0.0),
        ..Default::default()
    };
    let p = Prepared::new(&m);
    let (lx, ly) = (split(0.7), split(0.2));
    let raw = fbm(p.basis, lx, ly, p.octaves, p.seed, p.recip);
    let light = (raw >> 1) + ONE / 2;
    assert_eq!(sample(&p, lx, ly), to_f32(light));
    assert_eq!(try_sample(&p, lx, ly), Some(to_f32(light)));

    // A contrast of zero leaves the pivot, and a pivot outside the unit
    // interval is clamped to it.
    for (pivot, want) in [(0.25f32, 0.25f32), (1.5, 1.0), (-1.5, 0.0)] {
        let flat = Prepared::new(&Material {
            contrast: single(0.0),
            pivot: single(pivot),
            ..m
        });
        assert_eq!(try_sample(&flat, lx, ly), Some(single(want)));
    }
}

#[test]
fn ridges_are_not_remapped() {
    let m = Material {
        pattern: Pattern::Ridged,
        pivot: single(0.0),
        ..Default::default()
    };
    let p = Prepared::new(&m);
    let (lx, ly) = (split(4.3), split(9.1));
    let raw = ridged(p.basis, lx, ly, p.octaves, p.sharpness, p.seed, p.recip);
    assert_eq!(sample(&p, lx, ly), to_f32(raw.clamp(0, ONE)));
}

#[test]
fn what_leaves_the_format_is_reported() {
    let (lx, ly) = (split(0.7), split(0.2));
    // The lightness less the pivot.
    let far = Prepared::new(&Material {
        pivot: single(-16.0),
        ..Default::default()
    });
    assert_eq!(try_sample(&far, lx, ly), None);
    // The remapped lightness.
    let high = Prepared::new(&Material {
        pivot: single(15.75),
        contrast: single(-0.25),
        ..Default::default()
    });
    assert_eq!(try_sample(&high, lx, ly), None);
    // The displaced coordinate, where the first warp field is near its peak:
    // it is sampled on a lattice point here, so some seeds come close.
    let lx = Lat {
        cell: 0,
        frac: ONE - WARP_OFFSETS[0] % ONE,
    };
    let ly = Lat {
        cell: 0,
        frac: ONE - WARP_OFFSETS[1] % ONE,
    };
    let (mut torn, mut whole) = (0, 0);
    for seed in 0..5_000 {
        let p = Prepared::new(&Material {
            pattern: Pattern::Warped,
            warp: single(15.99),
            contrast: single(0.0),
            seed,
            ..Default::default()
        });
        match try_sample(&p, lx, ly) {
            None => torn += 1,
            Some(v) => {
                assert_eq!(v, single(0.5));
                whole += 1;
            }
        }
    }
    assert!(torn > 0 && whole > 0, "{torn} torn, {whole} whole");
}

#[test]
fn a_tile_that_does_not_fit_is_not_rendered() {
    let m = Material {
        pivot: single(-16.0),
        ..Default::default()
    };
    assert!(m.try_render_tile_exact(TileId::new(0, 0), 4).is_none());
    // No samples, nothing to leave the format.
    let none = m.try_render_tile_exact(TileId::new(0, 0), 0).unwrap();
    assert_eq!((none.size, none.data.len()), (0, 0));
    // More samples than 32 bits can count.
    let m = Material::default();
    assert!(m.try_render_tile_exact(TileId::new(0, 0), 65_536).is_none());
}

#[test]
fn the_step_between_pixels_agrees_with_the_hardware() {
    let mut h = 1u32;
    for i in 0..20_000u32 {
        h = h.wrapping_mul(747_796_405).wrapping_add(2_891_336_453);
        let f = f32::from_bits(h);
        let size = match i % 4 {
            0 => i,
            1 => h.rotate_left(7),
            2 => 1 << (i % 32),
            _ => 48,
        };
        let want = ((f / size as f32) as f64 * ONE as f64) as i32;
        assert_eq!(
            step_between_pixels(F32 { bits: h }, size),
            want,
            "{f} over {size}"
        );
    }
    for f in [0.0f32, -0.0, 1.0, -1.0, f32::INFINITY, f32::NEG_INFINITY, f32::NAN, 1e-45, -3e38] {
        for size in [0u32, 1, 3, 256, u32::MAX] {
            let want = ((f / size as f32) as f64 * ONE as f64) as i32;
            assert_eq!(step_between_pixels(single(f), size), want, "{f} over {size}");
        }
    }
}

#[test]
fn every_octave_has_a_seed_of_its_own() {
    let seeds: BTreeSet<u32> = (0..10_000u32)
        .map(|o| 7u32.wrapping_add(o.wrapping_mul(SEED_STEP)))
        .collect();
    assert_eq!(seeds.len(), 10_000);
}

#[test]
fn moderate_materials_always_render() {
    for b in [Basis::Value, Basis::Gradient, Basis::Worley] {
        for pattern in [Pattern::Fractal, Pattern::Ridged, Pattern::Warped] {
            for pivot in [0.0f32, 0.3, 1.0] {
                let contrast = if b == Basis::Worley { 7.0f32 } else { 14.0 };
                let m = Material {
                    basis: b,
                    pattern,
                    warp: single(14.0),
                    contrast: single(contrast),
                    pivot: single(pivot),
                    ..material()
                };
                let t = render(&m, TileId::new(-5, 12), 16);
                assert!(t.data.iter().all(|v| v.bits <= 0x3f80_0000));
            }
        }
    }
}

#[test]
fn noise_stays_within_its_documented_slack() {
    for i in 0..40_000u32 {
        let lx = Lat {
            cell: hash2(i as i32, 0, 1) as i32,
            frac: (hash2(i as i32, 1, 1) >> 5) as i32,
        };
        let ly = Lat {
            cell: hash2(i as i32, 2, 1) as i32,
            frac: (hash2(i as i32, 3, 1) >> 5) as i32,
        };
        let g = basis(Basis::Gradient, lx, ly, i);
        assert!(g.abs() <= ONE + 40);
        let r = ridged(Basis::Gradient, lx, ly, 4, 3, i, recip(fractal_norm(4)));
        assert!((-40..=ONE).contains(&r));
        let v = ridged(Basis::Value, lx, ly, 4, 3, i, recip(fractal_norm(4)));
        assert!((0..=ONE).contains(&v));
        let w = basis(Basis::Worley, lx, ly, i);
        assert!((-ONE..2 * ONE).contains(&w));
    }
}

#[test]
fn the_field_is_continuous_across_cell_borders() {
    for cell in [-3i32, 0, 7, i32::MAX] {
        let left = Lat {
            cell,
            frac: ONE - 1,
        };
        let right = Lat {
            cell: cell.wrapping_add(1),
            frac: 0,
        };
        for i in 0..200 {
            let l = split(i as f64 * 0.0713);
            for (b, bound) in [(Basis::Value, 61), (Basis::Gradient, 93)] {
                let across = (basis(b, left, l, 3) - basis(b, right, l, 3)).abs();
                let down = (basis(b, l, left, 3) - basis(b, l, right, 3)).abs();
                assert!(across <= bound && down <= bound, "{b:?} at {cell}: {across} {down}");
            }
        }
    }
}

#[test]
fn adjacent_tiles_are_windows_on_one_plane() {
    // At a frequency of 6 and 32 pixels the step divides evenly, so a tile
    // twice as wide at twice the frequency shows two tiles side by side.
    let m = material();
    let wide = Material {
        frequency: single(12.0),
        ..m
    };
    let (left, right) = (
        render(&m, TileId::new(6, 2), 32),
        render(&m, TileId::new(7, 2), 32),
    );
    let both = render(&wide, TileId::new(3, 1), 64);
    for y in 0..32 {
        for x in 0..32 {
            assert_eq!(both.get(x, y), left.get(x, y));
            assert_eq!(both.get(32 + x, y), right.get(x, y));
        }
    }
}

#[test]
fn tiles_lie_on_a_grid() {
    for (f, steps) in [(6.0f32, 6 * ONE as i128), (0.375, 3 * ONE as i128 / 8)] {
        for x in [0i64, 1, -1, 7, -1_000_003, 1 << 20, (1 << 28) + 5, 1 << 40] {
            let p = x as i128 * steps;
            let want = Lat {
                cell: p.div_euclid(ONE as i128) as i32,
                frac: p.rem_euclid(ONE as i128) as i32,
            };
            assert_eq!(Lat::split(scale(x, single(f))), want, "tile {x} at {f}");
        }
    }
}

#[test]
fn power_of_two_sizes_divide_evenly() {
    for f in [6.0f32, 0.375, 1.0, 17.5] {
        for size in [8u32, 64, 256, 4096] {
            let step = step_between_pixels(single(f), size);
            assert_eq!(step as i64 * size as i64, (f as f64 * ONE as f64) as i64);
        }
    }
    // A third is not a whole number of steps.
    assert_ne!(step_between_pixels(single(1.0), 3) as i64 * 3, ONE as i64);
}

#[test]
fn the_interpolant_moves_little_in_a_step() {
    for i in 0..200_000i32 {
        let t = (hash2(i, 0, 8) >> 5) as i32;
        let d = smootherstep(t + 1) - smootherstep(t);
        assert!((-15..=30).contains(&d), "{d} at {t}");
    }
}

#[test]
fn the_interpolant_moves_at_most_twice_as_fast() {
    for i in 0..100_000i32 {
        let (a, b) = ((hash2(i, 0, 5) >> 5) as i32, (hash2(i, 1, 5) >> 5) as i32);
        let (t, u) = (a.min(b), a.min(b) + ((a - b).abs() >> (i % 27)));
        let d = (smootherstep(u) - smootherstep(t)).abs();
        assert!(d <= 2 * (u - t) + 21, "{d} over {} at {t}", u - t);
    }
}

/// The slope and the jump of the smooth bases.
const SMOOTH: [(Basis, i64, i64); 2] = [(Basis::Value, 4, 172), (Basis::Gradient, 7, 260)];

fn fractal_change(slope: i64, jump: i64, octaves: i64, d: i64) -> i64 {
    octaves * (slope * d + 2) + 2 * jump + 1
}

/// How far tiles miss each other at most, where tile `x` is no farther out
/// than the one after it or before it.
fn seam_gap(size: u32, steps: i64, x: i64) -> i64 {
    let reach = (x.abs() + 1) as i128 * steps as i128;
    size as i64 + 3 + (steps >> 24) + (6 * reach >> 53) as i64
}

fn scaled_change(a: Fx, d: i64) -> i64 {
    ((a as i128).abs() * d as i128 / ONE as i128) as i64 + 1
}

#[test]
fn fractal_sums_move_no_faster_than_their_octaves() {
    let norm = recip(fractal_norm(5));
    for i in 0..20_000i32 {
        let a = Lat {
            cell: hash2(i, 0, 2) as i32,
            frac: (hash2(i, 1, 2) >> 5) as i32,
        };
        let by = 1 << (i % 27);
        let b = a.offset(by);
        let l = Lat {
            cell: hash2(i, 2, 2) as i32,
            frac: (hash2(i, 3, 2) >> 5) as i32,
        };
        let by = by as i64;
        for (kind, slope, jump) in SMOOTH {
            let d = (basis(kind, l, a, 1) - basis(kind, l, b, 1)).abs() as i64;
            assert!(d <= slope * by + jump, "{kind:?}: {d} over {by}");
            let d = (fbm(kind, a, l, 5, 1, norm) - fbm(kind, b, l, 5, 1, norm)).abs() as i64;
            assert!(d <= fractal_change(slope, jump, 5, by), "{kind:?}: {d} over {by}");
            let d = ridged(kind, l, a, 5, 3, 1, norm) - ridged(kind, l, b, 5, 3, 1, norm);
            let bound = 5 * (3 * slope * by + 2) + 2 * (3 * jump + 2) + 1;
            assert!(d.abs() as i64 <= bound, "{kind:?}: {d} over {by}");
        }
    }
}

#[test]
fn the_picture_goes_on_across_uneven_joins() {
    // Contrast and pivot beyond what every coordinate can hold: samples
    // count where they fit.
    for (contrast, pivot) in [(1.3f32, 0.5f32), (15.0, 0.5), (-2.5, 0.0), (3.0, 1.5)] {
        let m = Material {
            basis: Basis::Gradient,
            pattern: Pattern::Warped,
            frequency: single(4.0),
            octaves: 5,
            warp: single(0.9),
            contrast: single(contrast),
            pivot: single(pivot),
            ..Default::default()
        };
        let p = Prepared::new(&m);
        let mut fitted = 0;
        for size in [48u32, 100, 333] {
            let step = step_between_pixels(m.frequency, size);
            for x in [-70_001i64, 0, 12, 1 << 20] {
                let gap = seam_gap(size, 4 * ONE as i64, x);
                let moved = gap + 2 * scaled_change(p.warp, fractal_change(4, 172, 2, gap));
                let light = (fractal_change(7, 260, 5, moved) + 1) / 2;
                // Each sample is rounded by at most four steps besides.
                let bound = scaled_change(p.contrast, light) + 8;
                assert!(bound < ONE as i64 / 40, "{bound} says little at {size}");
                let left = Lat::split(scale(x, m.frequency)).step(size, step);
                let right = Lat::split(scale(x + 1, m.frequency));
                for i in 0..200 {
                    let ly = split(i as f64 * 0.377);
                    if let (Some(a), Some(b)) =
                        (try_sample(&p, left, ly), try_sample(&p, right, ly))
                    {
                        fitted += 1;
                        let d = (from_f32(a) - from_f32(b)).abs() as i64;
                        assert!(d <= bound, "{d} against {bound} at {size}");
                    }
                }
            }
        }
        assert!(fitted > 1_000, "{fitted} samples fit at contrast {contrast}");
    }
}

#[test]
fn usable_tiles_start_apart_off_the_grid() {
    for f in [0.0123f32, 1e-4, 0.7, 5.3e-6, 6.1] {
        let m = Material {
            frequency: single(f),
            ..Default::default()
        };
        let limit = m.max_tile();
        let origin = |x: i64| Lat::split(scale(x, m.frequency));
        for i in 0..2_000i64 {
            let a = limit - i;
            for b in [1 - a, a - 1, 0, -(a / 2)] {
                assert_ne!(origin(a), origin(b), "tiles {a} and {b} at {f}");
            }
        }
    }
}

#[test]
fn cellular_noise_moves_little_below_a_cell() {
    let slack = |r: i32| (ONE / (r + 1) + 2).min(16_386);
    let mut checked = 0;
    for i in 0..20_000i32 {
        let a = Lat {
            cell: hash2(i, 0, 6) as i32,
            frac: (hash2(i, 1, 6) >> 5) as i32,
        };
        let l = Lat {
            cell: hash2(i, 2, 6) as i32,
            frac: (hash2(i, 3, 6) >> 5) as i32,
        };
        let by = 1 << (i % 24);
        let (p, q) = (worley2(a, l, 9), worley2(a.offset(by), l, 9));
        if p <= ONE && q <= ONE {
            checked += 1;
            assert!((p - q).abs() <= by + slack(p.min(q)), "{p} and {q} are {by} apart");
        }
    }
    assert!(checked > 10_000);
}

#[test]
fn tiles_nearly_meet_at_uneven_sizes() {
    let position = |l: Lat| l.cell as i64 * ONE as i64 + l.frac as i64;
    let mut widest = 0;
    for i in 0..20_000i32 {
        let f = single(((hash2(i, 0, 4) >> 8) as f32 / 16_777_216.0 + 1e-3) * 12.0);
        let size = hash2(i, 1, 4) % 500 + 12;
        let x = (hash2(i, 2, 4) >> 8) as i64 - (1 << 23);
        let step = step_between_pixels(f, size);
        let left = Lat::split(scale(x, f)).step(size, step);
        let right = Lat::split(scale(x + 1, f));
        let gap = (position(left) - position(right)).abs();
        let steps = (float(f) as f64 * ONE as f64).ceil() as i64;
        assert!(gap <= seam_gap(size, steps, x), "{gap} at {f:?}");
        widest = widest.max(gap);
    }
    assert!(widest > 0, "every size divided its frequency evenly");
}
