use tilekiln::analysis::{
    knob_name, negligible, ranked, ranking, Accuracy, Sensitivity, Settings,
};
use tilekiln::ieee::F64;
use tilekiln::{Feature, Material};

fn double(v: f64) -> F64 {
    F64 { bits: v.to_bits() }
}

fn rank(spreads: &[f64]) -> Vec<usize> {
    let spreads: Vec<F64> = spreads.iter().map(|v| double(*v)).collect();
    ranking(&spreads)
}

#[test]
fn knobs_past_the_end_have_no_name() {
    assert_eq!(knob_name(0), Some("frequency"));
    assert_eq!(knob_name(4), Some("contrast"));
    assert_eq!(knob_name(5), None);
    assert_eq!(knob_name(99), None);
}

#[test]
fn the_largest_spread_comes_first() {
    assert_eq!(rank(&[]), Vec::<usize>::new());
    assert_eq!(rank(&[0.25]), vec![0]);
    assert_eq!(rank(&[0.1, 0.4, 0.2, 0.0, 0.3]), vec![1, 4, 2, 0, 3]);
}

#[test]
fn equal_spreads_keep_their_order() {
    assert_eq!(rank(&[0.5, 1.0, 0.5, 1.0, 0.5]), vec![1, 3, 0, 2, 4]);
    assert_eq!(rank(&[0.0, -0.0, 0.0]), vec![0, 1, 2]);
}

#[test]
fn ranking_agrees_with_a_stable_sort() {
    let mut h = 11u32;
    for n in 0..60 {
        let spreads: Vec<f64> = (0..n)
            .map(|_| {
                h = h.wrapping_mul(747_796_405).wrapping_add(2_891_336_453);
                ((h >> 28) as f64 - 7.0) * 1e-3
            })
            .collect();
        let mut want: Vec<usize> = (0..n).collect();
        want.sort_by(|a, b| spreads[*b].partial_cmp(&spreads[*a]).unwrap());
        assert_eq!(rank(&spreads), want);
    }
    assert_eq!(
        rank(&[f64::NEG_INFINITY, -1.0, f64::INFINITY, 1.0, 5e-324]),
        vec![2, 3, 4, 1, 0]
    );
}

#[test]
fn values_next_to_zero_are_negligible() {
    for v in [0.0f64, -0.0, 9.999e-10, -9.999e-10, 5e-324] {
        assert!(negligible(double(v)), "{v:e}");
    }
    for v in [1e-9f64, -1e-9, 1.0, -1.0, f64::INFINITY, f64::NAN] {
        assert!(!negligible(double(v)), "{v:e}");
    }
}

#[test]
fn the_default_settings() {
    let s = Settings::default();
    assert_eq!((s.samples, s.size, s.seed), (4_096, 48, 0x07e5_5e4a));
    assert_eq!((s.feature, s.max_relative), (Feature::Mean, double(0.05)));
}

#[test]
fn only_a_supported_accuracy_is_claimed() {
    let plan = |feature: Feature| {
        Settings {
            samples: 256,
            seed: 9,
            feature,
            ..Default::default()
        }
        .plan()
    };
    let with = plan(Feature::Mean);
    assert_eq!((with.n, with.seed), (256, 9));
    assert_eq!(with.invariance_lambda, Some(double(1.0)));
    assert_eq!(
        with.accuracy,
        Some(Accuracy {
            epsilon: double(1.0),
            eta: double(0.05),
            observation_diameter: double(1.0),
            obs_dim: 1,
        })
    );
    for f in [
        Feature::Contrast,
        Feature::EdgeDensity,
        Feature::SpectralCentroid,
    ] {
        let without = plan(f);
        assert_eq!((without.invariance_lambda, without.accuracy), (None, None));
    }
}

#[test]
fn sensitivities_are_put_in_order() {
    let all: Vec<Sensitivity> = [0.1, 0.4, 0.2, 0.4, 0.0]
        .iter()
        .enumerate()
        .map(|(i, v)| Sensitivity {
            knob: Material::KNOBS[i],
            spread: double(*v),
            nominal: double(i as f64),
            error_bound: if i % 2 == 0 { None } else { Some(double(*v)) },
        })
        .collect();
    let names: Vec<&str> = ranked(&all).iter().map(|s| s.knob).collect();
    assert_eq!(
        names,
        vec!["octaves", "warp", "sharpness", "frequency", "contrast"]
    );
    assert_eq!(ranked(&all)[0], all[1]);
    assert!(ranked(&[]).is_empty());
}
