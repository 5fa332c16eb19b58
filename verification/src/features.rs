//! Scalar features of a rendered tile.
//!
//! A stability analysis needs a number, not an image. Which number decides
//! what "the texture changed" means, so the choice is part of the question
//! rather than an implementation detail.
//!
//! A non-asymptotic error bound can be derived only for a functional with a
//! declared Wasserstein-1 Lipschitz constant. Tile values live in `[0, 1]`,
//! so the observation diameter is 1 and the mean is exactly 1-Lipschitz. The
//! other features are not functionals of the pixel distribution, or not
//! Lipschitz ones; each declares nothing, and an analysis omits the bound
//! instead of inventing a constant.

use vstd::arithmetic::power2::*;
use vstd::prelude::*;

use crate::ieee::F64;
use crate::seam;

verus! {

/// Which scalar to measure a tile by.
#[derive(Debug, Clone, Copy, PartialEq, Eq, Structural)]
pub enum Feature {
    /// Overall lightness. The only one with a declared constant, so the
    /// only one that yields an error bound.
    Mean,
    /// Flatness against punchiness.
    Contrast,
    /// How much visible structure there is.
    EdgeDensity,
    /// What *scale* the structure is at.
    SpectralCentroid,
}

/// The number 1 as binary64.
pub open spec fn unit_f64() -> F64 {
    F64 { bits: 0x3ff0_0000_0000_0000 }
}

impl Feature {
    /// Stable tag, used as a report's functional name.
    pub open spec fn tag(self) -> Seq<char> {
        match self {
            Feature::Mean => "mean"@,
            Feature::Contrast => "contrast"@,
            Feature::EdgeDensity => "edge_density"@,
            Feature::SpectralCentroid => "spectral_centroid"@,
        }
    }

    /// Stable tag, used as a report's functional name.
    pub fn name(self) -> (r: &'static str)
        ensures
            r@ == self.tag(),
    {
        match self {
            Feature::Mean => "mean",
            Feature::Contrast => "contrast",
            Feature::EdgeDensity => "edge_density",
            Feature::SpectralCentroid => "spectral_centroid",
        }
    }

    /// Declared Wasserstein-1 Lipschitz constant, where one exists.
    ///
    /// `None` means an analysis will not report an error bound, which is the
    /// correct outcome for a functional that is not Lipschitz.
    pub fn lipschitz_w1(self) -> (r: Option<F64>)
        ensures
            r == if self is Mean {
                Some(unit_f64())
            } else {
                None
            },
    {
        match self {
            Feature::Mean => Some(F64 { bits: 0x3ff0_0000_0000_0000 }),
            _ => None,
        }
    }

    /// Diameter of the observation space, where it is bounded.
    pub fn observation_diameter(self) -> (r: Option<F64>)
        ensures
            r == if self is Mean {
                Some(unit_f64())
            } else {
                None
            },
    {
        match self {
            Feature::Mean => Some(F64 { bits: 0x3ff0_0000_0000_0000 }),
            _ => None,
        }
    }
}

/// The constant and the diameter of a bounded measurement are one.
pub proof fn lemma_unit_is_one()
    ensures
        !unit_f64().nan(),
        seam::weight64(unit_f64()) == pow2(1074),
{
    let v = unit_f64();
    lemma2_to64();
    lemma2_to64_rest();
    lemma_pow2_adds(52, 1022);
    assert(v.biased() == 1023 && v.sig() == 0x10_0000_0000_0000);
}

/// Tags tell the features apart.
pub proof fn lemma_tags_distinct(a: Feature, b: Feature)
    requires
        a.tag() == b.tag(),
    ensures
        a == b,
{
    reveal_strlit("mean");
    reveal_strlit("contrast");
    reveal_strlit("edge_density");
    reveal_strlit("spectral_centroid");
    assert("mean"@.len() == 4 && "contrast"@.len() == 8 && "edge_density"@.len() == 12
        && "spectral_centroid"@.len() == 17);
}

/// The highest frequency that the spectral centroid looks at, in cycles per
/// tile: half the tile's width, where aliasing begins, but no more than 32.
/// `None` for a tile too small to have a spectrum.
pub fn spectral_band(size: u32) -> (r: Option<u32>)
    ensures
        r == if size < 4 {
            None
        } else if size / 2 < 32 {
            Some(size / 2)
        } else {
            Some(32u32)
        },
{
    if size < 4 {
        None
    } else if size / 2 < 32 {
        Some(size / 2)
    } else {
        Some(32)
    }
}

} // verus!
