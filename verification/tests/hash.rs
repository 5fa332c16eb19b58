use tilekiln::exact::signed;
use tilekiln::fixed::from_f32;
use tilekiln::hash::{hash2, hash3, mix, signed_f32, unit_f32};

#[test]
fn unit_stays_in_range() {
    for i in 0..100_000u32 {
        let v = f32::from_bits(unit_f32(mix(i)).bits);
        assert!((0.0..1.0).contains(&v), "{v} out of range at {i}");
    }
}

#[test]
fn adjacent_coordinates_decorrelate() {
    let mut total = 0u32;
    let n = 10_000i32;
    for i in 0..n {
        let a = hash2(i, 0, 1);
        let b = hash2(i + 1, 0, 1);
        total += (a ^ b).count_ones();
    }
    let mean = total as f64 / n as f64;
    assert!(
        (13.0..19.0).contains(&mean),
        "mean Hamming distance {mean} suggests poor avalanche"
    );
}

#[test]
fn coordinates_are_not_symmetric() {
    assert_ne!(hash2(3, 7, 0), hash2(7, 3, 0));
}

#[test]
fn the_seed_actually_moves_the_field() {
    assert_ne!(hash2(0, 0, 0), hash2(0, 0, 1));
}

#[test]
fn mixing_gives_known_words() {
    assert_eq!(mix(0), 0);
    let mut x = 1u32;
    x ^= x >> 16;
    x = x.wrapping_mul(0x7feb_352d);
    x ^= x >> 15;
    x = x.wrapping_mul(0x846c_a68b);
    x ^= x >> 16;
    assert_eq!(mix(1), x);
}

#[test]
fn mixing_has_no_collisions_on_a_range() {
    let mut seen: Vec<u32> = (0..50_000u32).map(mix).collect();
    seen.sort_unstable();
    seen.dedup();
    assert_eq!(seen.len(), 50_000);
}

#[test]
fn rows_columns_and_layers_have_no_collisions() {
    let row: std::collections::BTreeSet<u32> = (-500..500).map(|x| hash2(x, 3, 9)).collect();
    assert_eq!(row.len(), 1000);
    let column: std::collections::BTreeSet<u32> = (-500..500).map(|y| hash2(3, y, 9)).collect();
    assert_eq!(column.len(), 1000);
    let layers: std::collections::BTreeSet<u32> = (-500..500).map(|z| hash3(3, 4, z, 9)).collect();
    assert_eq!(layers.len(), 1000);
}

#[test]
fn mirror_images_collide_only_where_the_diagonal_does() {
    // The diagonal cells 14357 and 46101 fold alike.
    for seed in [0, 1, 77] {
        assert_eq!(hash2(14357, 46101, seed), hash2(46101, 14357, seed));
        assert_eq!(hash2(14357, 14357, seed), hash2(46101, 46101, seed));
        assert_ne!(hash2(14358, 46101, seed), hash2(46101, 14358, seed));
    }
}

#[test]
fn hashed_values_agree_with_the_hardware() {
    let mut h = 99u32;
    for _ in 0..100_000 {
        h = mix(h.wrapping_add(1));
        let unit = f32::from_bits((h >> 9) | 0x3f80_0000) - 1.0;
        assert_eq!(unit_f32(h).bits, unit.to_bits());
        assert_eq!(signed_f32(h).bits, (unit * 2.0 - 1.0).to_bits());
    }
    for h in [0, 0xff, 0x1ff, 0x200, 0x7fff_ffff, 0x8000_0000, 0x8000_0200, u32::MAX] {
        let unit = f32::from_bits((h >> 9) | 0x3f80_0000) - 1.0;
        assert_eq!(unit_f32(h).bits, unit.to_bits());
        assert_eq!(signed_f32(h).bits, (unit * 2.0 - 1.0).to_bits());
    }
}

#[test]
fn both_formats_hold_the_same_hashed_value() {
    let mut h = 5u32;
    for _ in 0..50_000 {
        h = mix(h.wrapping_add(1));
        assert_eq!(signed(h), from_f32(signed_f32(h)));
        assert_eq!(from_f32(unit_f32(h)), ((h >> 9) * 16) as i32);
    }
}

#[test]
fn neighbouring_cells_always_differ() {
    for (x, y) in [(0, 0), (-1, 5), (i32::MAX, i32::MAX), (123_456, -9)] {
        for seed in 0..500 {
            let h = hash2(x, y, seed);
            assert_ne!(h ^ hash2(x.wrapping_add(1), y, seed), 0);
            assert_ne!(h ^ hash2(x, y.wrapping_add(1), seed), 0);
        }
    }
}
