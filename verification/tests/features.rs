use tilekiln::features::spectral_band;
use tilekiln::ieee::F64;
use tilekiln::Feature;

const ALL: [Feature; 4] = [
    Feature::Mean,
    Feature::Contrast,
    Feature::EdgeDensity,
    Feature::SpectralCentroid,
];

fn float(v: Option<F64>) -> Option<f64> {
    v.map(|v| f64::from_bits(v.bits))
}

#[test]
fn only_mean_claims_a_lipschitz_constant() {
    assert_eq!(float(Feature::Mean.lipschitz_w1()), Some(1.0));
    for f in [
        Feature::Contrast,
        Feature::EdgeDensity,
        Feature::SpectralCentroid,
    ] {
        assert!(
            f.lipschitz_w1().is_none(),
            "{} should not claim a constant",
            f.name()
        );
    }
}

#[test]
fn only_mean_has_a_bounded_observation_space() {
    for f in ALL {
        let want = if f == Feature::Mean { Some(1.0) } else { None };
        assert_eq!(float(f.observation_diameter()), want);
    }
}

#[test]
fn features_have_stable_names() {
    assert_eq!(
        ALL.map(|f| f.name()),
        ["mean", "contrast", "edge_density", "spectral_centroid"]
    );
}

#[test]
fn the_spectral_band_is_capped() {
    let bands = [0u32, 3, 4, 5, 63, 64, 65, 4096].map(spectral_band);
    assert_eq!(
        bands,
        [None, None, Some(2), Some(2), Some(31), Some(32), Some(32), Some(32)]
    );
}
