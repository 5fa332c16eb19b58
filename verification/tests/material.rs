use std::collections::BTreeSet;

use tilekiln::ieee::{F32, F64};
use tilekiln::png::quantise;
use tilekiln::{Basis, Material, Pattern, Tile, TileId};

fn single(v: f32) -> F32 {
    F32 { bits: v.to_bits() }
}

fn float(v: F32) -> f32 {
    f32::from_bits(v.bits)
}

fn bits(t: &Tile) -> Vec<u32> {
    t.data.iter().map(|v| v.bits).collect()
}

#[test]
fn tiles_inside_the_usable_range_are_all_different() {
    let m = Material {
        basis: Basis::Gradient,
        pattern: Pattern::Ridged,
        frequency: single(6.0),
        octaves: 5,
        sharpness: 3,
        ..Default::default()
    };
    let limit = m.max_tile();
    let count = |t: i64| -> (Vec<u32>, usize) {
        let found = bits(&m.render_tile_exact(TileId::new(t, 0), 24));
        let distinct = found.iter().copied().collect::<BTreeSet<_>>().len();
        (found, distinct)
    };

    let (base_bits, baseline) = count(0);
    let mut seen = BTreeSet::new();
    seen.insert(base_bits);

    for &t in &[1i64, 1 << 10, 1 << 20, 1 << 26, limit / 2, limit] {
        let (found, distinct) = count(t);
        assert!(
            seen.insert(found),
            "tile {t} is a bit-for-bit copy of an earlier tile, inside the \
             usable range of {limit}"
        );
        assert!(
            distinct * 4 >= baseline * 3,
            "tile {t} resolves {distinct} distinct values against {baseline} \
             at tile 0, so the coordinate has lost precision"
        );
    }
}

#[test]
fn the_field_repeats_exactly_at_the_documented_period() {
    let m = Material {
        frequency: single(6.0),
        octaves: 4,
        ..Default::default()
    };
    let base = m.render_tile_exact(TileId::new(0, 0), 16);
    let aliased = m.render_tile_exact(TileId::new(1 << 40, 0), 16);
    assert_eq!(
        base.data, aliased.data,
        "tile 2^40 should alias exactly onto tile 0 at frequency 6"
    );
    let ok = m.render_tile_exact(TileId::new(m.max_tile(), 0), 16);
    assert_ne!(
        base.data, ok.data,
        "the largest in-range tile should not alias onto tile 0"
    );
}

#[test]
fn output_is_bounded() {
    let m = Material {
        contrast: single(8.0),
        ..Default::default()
    };
    for v in m.render_exact(64).data {
        let v = float(v);
        assert!((0.0..=1.0).contains(&v), "{v} escaped the unit interval");
    }
}

#[test]
fn tiles_are_addressable_in_any_order() {
    let m = Material::default();
    let far = m.render_tile_exact(TileId::new(1_000_000, -4_000_000), 16);
    let near = m.render_tile_exact(TileId::new(0, 0), 16);
    let far_again = m.render_tile_exact(TileId::new(1_000_000, -4_000_000), 16);
    assert_eq!(
        far, far_again,
        "a tile changed depending on what was rendered before it"
    );
    assert_ne!(far.data, near.data);
}

#[test]
fn material_far_tiles_keep_their_detail() {
    let m = Material {
        frequency: single(4.0),
        octaves: 4,
        ..Default::default()
    };
    let size = 128u32;
    let total = (size * size) as usize;
    for shift in [0u32, 10, 20, 30, 40] {
        let t = 1i64 << shift;
        let found: BTreeSet<u32> = bits(&m.render_tile_exact(TileId::new(t, 0), size))
            .into_iter()
            .collect();
        let ratio = found.len() as f64 / total as f64;
        assert!(
            ratio > 0.9,
            "tile 2^{shift}: only {} of {total} pixels distinct ({:.1}%), \
             which means the coordinate precision collapsed",
            found.len(),
            ratio * 100.0
        );
    }
}

#[test]
fn knobs_round_trip() {
    let m = Material::default();
    for i in 0..Material::KNOBS.len() {
        let v = m.knob(i).unwrap();
        let m2 = m.with_knob(i, v);
        assert_eq!(
            m2.knob(i).unwrap(),
            v,
            "knob {} did not round-trip",
            Material::KNOBS[i]
        );
    }
    assert!(m.knob(99).is_none());
}

#[test]
fn octaves_cannot_be_perturbed_to_zero() {
    let m = Material::default().with_knob(1, single(-3.0));
    assert_eq!(m.octaves, 1);
}

#[test]
fn the_default_material() {
    let m = Material::default();
    assert_eq!((m.basis, m.pattern), (Basis::Gradient, Pattern::Fractal));
    assert_eq!((m.octaves, m.sharpness, m.seed), (5, 2, 0));
    assert_eq!(
        [m.frequency, m.warp, m.contrast, m.pivot].map(float),
        [4.0, 0.0, 1.0, 0.5]
    );
}

#[test]
fn knobs_are_named_in_a_fixed_order() {
    assert_eq!(
        Material::KNOBS,
        ["frequency", "octaves", "sharpness", "warp", "contrast"]
    );
    assert_eq!(Material::KNOB_QUANTISED, [false, true, true, false, false]);
    let m = Material {
        frequency: single(1.5),
        octaves: 7,
        sharpness: 3,
        warp: single(-0.25),
        contrast: single(9.0),
        ..Default::default()
    };
    let knobs: Vec<f32> = (0..5).map(|i| float(m.knob(i).unwrap())).collect();
    assert_eq!(knobs, vec![1.5, 7.0, 3.0, -0.25, 9.0]);
}

#[test]
fn setting_a_knob_agrees_with_the_hardware() {
    let mut h = 3u32;
    let mut values = vec![
        0.0f32,
        -0.0,
        0.49999997,
        0.5,
        1.5,
        2.5,
        -7.5,
        8_388_607.5,
        8_388_609.0,
        4_294_967_040.0,
        4_294_967_296.0,
        1e30,
        f32::INFINITY,
        f32::NEG_INFINITY,
        f32::NAN,
    ];
    for _ in 0..20_000 {
        h = h.wrapping_mul(747_796_405).wrapping_add(2_891_336_453);
        values.push(f32::from_bits(h));
        values.push((h >> 9) as f32 / 4096.0);
    }
    let m = Material::default();
    for v in values {
        let count = v.round().max(1.0) as u32;
        assert_eq!(m.with_knob(1, single(v)).octaves, count, "{v}");
        assert_eq!(m.with_knob(2, single(v)).sharpness, count, "{v}");
        let f = float(m.with_knob(0, single(v)).frequency);
        assert_eq!(f, v.max(0.0), "{v}");
        assert_eq!(m.with_knob(3, single(v)).warp.bits, v.to_bits());
        assert_eq!(m.with_knob(4, single(v)).contrast.bits, v.to_bits());
        assert_eq!(m.with_knob(5, single(v)), m);
    }
}

#[test]
fn integer_knobs_read_as_the_nearest_float() {
    for n in [1u32, 2, 16_777_215, 16_777_216, 16_777_217, 16_777_219, u32::MAX - 127, u32::MAX] {
        let m = Material {
            octaves: n,
            ..Default::default()
        };
        assert_eq!(float(m.knob(1).unwrap()), n as f32);
        let again = m.with_knob(1, m.knob(1).unwrap());
        assert_eq!(again.knob(1), m.knob(1));
    }
}

#[test]
fn the_largest_usable_tile() {
    let limit = |f: f32| {
        Material {
            frequency: single(f),
            ..Default::default()
        }
        .max_tile()
    };
    assert_eq!(limit(6.0), 357_913_941);
    assert_eq!(limit(4.0), 1 << 29);
    let mut h = 5u32;
    let mut values = vec![0.0f32, -0.0, 1e-45, 1e-30, -1.0, f32::INFINITY, f32::NAN];
    for _ in 0..20_000 {
        h = h.wrapping_mul(747_796_405).wrapping_add(2_891_336_453);
        values.push(f32::from_bits(h));
        values.push((h >> 8) as f32 / 100_000.0);
    }
    for f in values {
        let want = (4_294_967_296.0f64 / (2.0 * f as f64)) as i64;
        assert_eq!(limit(f), want, "{f}");
    }
}

#[test]
fn pixels_are_stored_row_by_row() {
    let data: Vec<F32> = (0..9).map(|i| single(i as f32 / 8.0)).collect();
    let t = Tile { size: 3, data };
    assert_eq!(float(t.get(0, 0)), 0.0);
    assert_eq!(float(t.get(2, 0)), 0.25);
    assert_eq!(float(t.get(1, 2)), 7.0 / 8.0);
}

#[test]
fn equality_is_that_of_numbers() {
    let values = [0.0f32, -0.0, 1.0, -1.0, 1e-45, f32::INFINITY, f32::NEG_INFINITY, f32::NAN];
    for a in values {
        for b in values {
            assert_eq!(single(a) == single(b), a == b, "{a} and {b}");
            let (c, d) = (a as f64, b as f64);
            let double = |v: f64| F64 { bits: v.to_bits() };
            assert_eq!(double(c) == double(d), c == d, "{c} and {d}");
            let tile = |v: f32| Tile {
                size: 1,
                data: vec![single(v)],
            };
            assert_eq!(tile(a) == tile(b), a == b);
            for i in [3, 4] {
                let m = Material::default();
                let (ma, mb) = (m.with_knob(i, single(a)), m.with_knob(i, single(b)));
                assert_eq!(ma == mb, a == b);
            }
        }
    }
    let m = Material::default();
    assert!(m == m && m != m.with_knob(1, single(9.0)));
    assert_ne!(m, Material { seed: 1, ..m });
    let t = m.render_exact(2);
    assert_ne!(t, Tile { size: 1, data: t.data.clone() });
    assert_ne!(t, Tile { size: 2, data: t.data[..3].to_vec() });
}

#[test]
fn a_tile_encodes_its_quantised_pixels() {
    let t = Material::default().render_exact(5);
    let px: Vec<u8> = t.data.iter().map(|v| quantise(*v)).collect();
    assert_eq!(t.to_png(), tilekiln::png::grey(5, 5, &px));
}
