//! Parameter stability analysis: which knobs are load-bearing.
//!
//! An analysis jitters one knob of a material by a relative intensity,
//! renders a tile for each draw, and reports how far a measurement moved.
//! The renders and the draws are made outside; this module holds how an
//! analysis is set up, what it may claim, and how its results are ranked.

use vstd::arithmetic::power2::*;
use vstd::prelude::*;

use crate::features;
use crate::features::Feature;
use crate::ieee::F64;
use crate::material::Material;
use crate::numbers;
use crate::seam;
use crate::smoothness;

verus! {

/// How to run an analysis.
#[derive(Debug, Clone, Copy, PartialEq)]
pub struct Settings {
    /// Perturbed renders per knob. The estimator's standard error falls
    /// with the square root of their number.
    pub samples: u64,
    /// Tile resolution for each render. The dominant cost.
    pub size: u32,
    /// Maximum relative jitter. A twentieth is a nudged slider.
    pub max_relative: F64,
    /// Which measurement to hold still.
    pub feature: Feature,
    /// Seed for the perturbation ensemble. Fixes the whole analysis.
    pub seed: u64,
}

impl Default for Settings {
    fn default() -> (r: Self)
        ensures
            r == (Settings {
                samples: 4_096,
                size: 48,
                max_relative: F64 { bits: 0x3fa9_9999_9999_999a },
                feature: Feature::Mean,
                seed: 0x07e5_5e4a,
            }),
            0 <= 20 * seam::weight64(r.max_relative) - pow2(1074) <= 8 * pow2(1017),
    {
        proof {
            numbers::lemma_twentieth();
        }
        Settings {
            samples: 4_096,
            size: 48,
            // 1/20
            max_relative: F64 { bits: 0x3fa9_9999_9999_999a },
            feature: Feature::Mean,
            seed: 0x07e5_5e4a,
        }
    }
}

/// An accuracy that an error bound is derived for.
#[derive(Debug, Clone, Copy, PartialEq)]
pub struct Accuracy {
    /// Tolerance. Loose enough that the sample floor does not reject
    /// ordinary settings; the reported bound is what matters.
    pub epsilon: F64,
    /// Probability of missing it.
    pub eta: F64,
    /// Diameter of the observation space.
    pub observation_diameter: F64,
    /// Dimension of the observation space.
    pub obs_dim: u32,
}

/// What an estimator is asked for.
#[derive(Debug, Clone, Copy, PartialEq)]
pub struct Plan {
    /// Ensemble size.
    pub n: u64,
    /// Ensemble seed.
    pub seed: u64,
    /// Declared Lipschitz constant of the functional, if it has one.
    pub invariance_lambda: Option<F64>,
    /// Accuracy target, if the functional can support one.
    pub accuracy: Option<Accuracy>,
}

impl Settings {
    /// What to ask the estimator for.
    ///
    /// Only an accuracy that the feature can support is claimed: asking for
    /// one without a Lipschitz constant would produce a bound with nothing
    /// behind it.
    pub fn plan(&self) -> (r: Plan)
        ensures
            r.n == self.samples,
            r.seed == self.seed,
            r.invariance_lambda == if self.feature is Mean {
                Some(features::unit_f64())
            } else {
                None
            },
            r.accuracy == if self.feature is Mean {
                Some(
                    Accuracy {
                        epsilon: features::unit_f64(),
                        eta: F64 { bits: 0x3fa9_9999_9999_999a },
                        observation_diameter: features::unit_f64(),
                        obs_dim: 1,
                    },
                )
            } else {
                None
            },
    {
        let accuracy: Option<Accuracy> = match (
            self.feature.lipschitz_w1(),
            self.feature.observation_diameter(),
        ) {
            (Some(_), Some(d)) => Some(
                Accuracy {
                    epsilon: F64 { bits: 0x3ff0_0000_0000_0000 },
                    eta: F64 { bits: 0x3fa9_9999_9999_999a },
                    observation_diameter: d,
                    obs_dim: 1,
                },
            ),
            _ => None,
        };
        Plan {
            n: self.samples,
            seed: self.seed,
            invariance_lambda: self.feature.lipschitz_w1(),
            accuracy,
        }
    }
}

/// How much a knob moves a measurement. In executable code `==` compares the
/// numbers as numbers, like that of [`F64`].
#[derive(Debug, Clone, Copy, PartialEq)]
pub struct Sensitivity {
    /// Which knob was perturbed.
    pub knob: &'static str,
    /// Root-mean-square movement of the feature under perturbation, in the
    /// feature's own units.
    pub spread: F64,
    /// The feature's value at the unperturbed material, for scale.
    pub nominal: F64,
    /// Error bound on `spread`, when the feature declares a Lipschitz
    /// constant.
    pub error_bound: Option<F64>,
}

/// A number whose order is the order of binary64 numbers. Both zeros have
/// the same one.
pub open spec fn order_key(v: F64) -> int {
    if v.neg() {
        0x8000_0000_0000_0000 - v.bits
    } else {
        v.bits as int
    }
}

/// A number whose order is the order of magnitudes.
pub open spec fn magnitude_key(v: F64) -> int {
    v.bits as int % 0x8000_0000_0000_0000
}

/// Whether a value is closer to zero than 10^-9. A ratio to such a value is
/// not meaningful, rather than merely large, and a nudge relative to it would
/// not move it: a caller nudges it by an absolute amount. What is not a
/// number is not close to zero.
pub fn negligible(v: F64) -> (r: bool)
    ensures
        r == (magnitude_key(v) < 0x3e11_2e0b_e826_d695),
        r == (smoothness::distance(seam::weight64(v)) * 1_000_000_000 < pow2(1074)),
        r ==> !v.nan(),
{
    proof {
        numbers::lemma_threshold(v);
    }
    v.bits % 0x8000_0000_0000_0000 < 0x3e11_2e0b_e826_d695
}

/// Whether sensitivity `i` comes before sensitivity `j`: the larger spread
/// first, and of equal ones the one that was measured first.
pub open spec fn before(spreads: Seq<F64>, i: int, j: int) -> bool {
    let (a, b) = (order_key(spreads[i]), order_key(spreads[j]));
    a > b || (a == b && i < j)
}

/// Every index below `n` exactly once.
pub open spec fn is_permutation(order: Seq<usize>, n: nat) -> bool {
    &&& order.len() == n
    &&& forall|k: int| 0 <= k < n ==> #[trigger] order[k] < n
    &&& forall|k: int, l: int|
        0 <= k < n && 0 <= l < n && k != l ==> #[trigger] order[k] != #[trigger] order[l]
}

/// An order of the spreads' indices, most sensitive first.
pub open spec fn is_ranking(spreads: Seq<F64>, order: Seq<usize>) -> bool {
    &&& is_permutation(order, spreads.len())
    &&& forall|k: int, l: int|
        0 <= k < l < order.len() ==> before(
            spreads,
            #[trigger] order[k] as int,
            #[trigger] order[l] as int,
        )
}

/// The name of a knob, or `None` past the end.
pub fn knob_name(knob: usize) -> (r: Option<&'static str>)
    ensures
        r == if knob < 5 {
            Some(Material::KNOBS[knob as int])
        } else {
            None
        },
{
    if knob < 5 {
        Some(Material::KNOBS[knob])
    } else {
        None
    }
}

fn comes_before(a: F64, b: F64) -> (r: bool)
    ensures
        r == (order_key(a) > order_key(b)),
{
    let ka: i128 = if a.bits >= 0x8000_0000_0000_0000 {
        0x8000_0000_0000_0000 - a.bits as i128
    } else {
        a.bits as i128
    };
    let kb: i128 = if b.bits >= 0x8000_0000_0000_0000 {
        0x8000_0000_0000_0000 - b.bits as i128
    } else {
        b.bits as i128
    };
    ka > kb
}

/// Rank sensitivities, most sensitive first: the indices of the spreads in
/// descending order, and in the order they were measured in where they are
/// equal.
pub fn ranking(spreads: &[F64]) -> (order: Vec<usize>)
    requires
        forall|i: int| 0 <= i < spreads@.len() ==> !(#[trigger] spreads@[i]).nan(),
    ensures
        is_ranking(spreads@, order@),
{
    let mut order: Vec<usize> = Vec::new();
    let mut i: usize = 0;
    while i < spreads.len()
        invariant
            i <= spreads@.len(),
            is_permutation(order@, i as nat),
            forall|k: int, l: int|
                0 <= k < l < order@.len() ==> before(
                    spreads@,
                    #[trigger] order@[k] as int,
                    #[trigger] order@[l] as int,
                ),
        decreases spreads@.len() - i,
    {
        let mut at: usize = i;
        while at > 0 && comes_before(spreads[i], spreads[order[at - 1]])
            invariant
                i < spreads@.len(),
                at <= i,
                is_permutation(order@, i as nat),
                forall|k: int|
                    at <= k < i ==> before(spreads@, i as int, #[trigger] order@[k] as int),
            decreases at,
        {
            at = at - 1;
        }
        proof {
            // What stands before the gap comes before the newcomer.
            if at > 0 {
                let last = order@[at - 1] as int;
                assert(before(spreads@, last, i as int));
                assert forall|k: int| 0 <= k < at implies before(
                    spreads@,
                    #[trigger] order@[k] as int,
                    i as int,
                ) by {
                    if k < at - 1 {
                        assert(before(spreads@, order@[k] as int, last));
                    }
                }
            }
        }
        let ghost old_order = order@;
        order.insert(at, i);
        assert forall|k: int, l: int| 0 <= k < l < order@.len() implies before(
            spreads@,
            #[trigger] order@[k] as int,
            #[trigger] order@[l] as int,
        ) by {
            let kk = if k <= at { k } else { k - 1 };
            let ll = if l <= at { l } else { l - 1 };
            if k != at && l != at {
                assert(order@[k] == old_order[kk] && order@[l] == old_order[ll]);
            }
        }
        i = i + 1;
    }
    order
}

/// The spreads of sensitivities.
pub open spec fn spreads_of(all: Seq<Sensitivity>) -> Seq<F64> {
    all.map_values(|s: Sensitivity| s.spread)
}

/// Put sensitivities in order, most sensitive first, and in the order they
/// were measured in where they are equally so.
pub fn ranked(all: &[Sensitivity]) -> (r: Vec<Sensitivity>)
    requires
        forall|i: int| 0 <= i < all@.len() ==> !(#[trigger] all@[i]).spread.nan(),
    ensures
        exists|order: Seq<usize>| #[trigger]
            is_ranking(spreads_of(all@), order) && r@ == order.map_values(
                |i: usize| all@[i as int],
            ),
{
    let mut spreads: Vec<F64> = Vec::new();
    let mut i: usize = 0;
    while i < all.len()
        invariant
            i <= all@.len(),
            spreads@ == spreads_of(all@).subrange(0, i as int),
        decreases all@.len() - i,
    {
        spreads.push(all[i].spread);
        i = i + 1;
        assert(spreads@ =~= spreads_of(all@).subrange(0, i as int));
    }
    assert(spreads@ =~= spreads_of(all@));
    let order: Vec<usize> = ranking(spreads.as_slice());
    let mut r: Vec<Sensitivity> = Vec::new();
    let mut k: usize = 0;
    while k < order.len()
        invariant
            k <= order@.len(),
            is_ranking(spreads_of(all@), order@),
            r@ == order@.subrange(0, k as int).map_values(|i: usize| all@[i as int]),
        decreases order@.len() - k,
    {
        r.push(all[order[k]]);
        k = k + 1;
        assert(r@ =~= order@.subrange(0, k as int).map_values(|i: usize| all@[i as int]));
    }
    assert(order@.subrange(0, k as int) =~= order@);
    assert(is_ranking(spreads_of(all@), order@));
    r
}

/// The ranking is the only order that lists every index once with each
/// before the next: the analysis leaves nothing to chance.
pub proof fn lemma_ranking_unique(spreads: Seq<F64>, a: Seq<usize>, b: Seq<usize>)
    requires
        is_ranking(spreads, a),
        is_ranking(spreads, b),
    ensures
        a == b,
{
    assert forall|n: nat| n <= a.len() implies #[trigger] a.take(n as int) == b.take(n as int) by {
        lemma_rankings_agree(spreads, a, b, n);
    }
    assert(a.take(a.len() as int) =~= a);
    assert(b.take(b.len() as int) =~= b);
}

proof fn lemma_rankings_agree(spreads: Seq<F64>, a: Seq<usize>, b: Seq<usize>, n: nat)
    requires
        n <= spreads.len(),
        is_ranking(spreads, a),
        is_ranking(spreads, b),
    ensures
        a.take(n as int) == b.take(n as int),
    decreases n,
{
    if n > 0 {
        let m = (n - 1) as nat;
        lemma_rankings_agree(spreads, a, b, m);
        let (x, y) = (a[m as int], b[m as int]);
        if x != y {
            let i = lemma_permutation_hits(b, spreads.len(), x as nat);
            let j = lemma_permutation_hits(a, spreads.len(), y as nat);
            // Neither stands in the common part, so each comes before the
            // other.
            if i < m {
                assert(a.take(m as int)[i] == b.take(m as int)[i]);
                assert(false);
            }
            if j < m {
                assert(a.take(m as int)[j] == b.take(m as int)[j]);
                assert(false);
            }
            assert(before(spreads, b[m as int] as int, b[i] as int));
            assert(before(spreads, a[m as int] as int, a[j] as int));
            assert(false);
        }
        assert(a.take(n as int) =~= a.take(m as int).push(x));
        assert(b.take(n as int) =~= b.take(m as int).push(y));
    }
}

/// A permutation of the indices below `n` contains each of them.
pub proof fn lemma_permutation_hits(s: Seq<usize>, n: nat, v: nat) -> (i: int)
    requires
        is_permutation(s, n),
        v < n,
    ensures
        0 <= i < n,
        s[i] == v,
{
    if forall|i: int| 0 <= i < n ==> #[trigger] s[i] != v {
        // n distinct indices among the n - 1 others.
        let values = s.to_set();
        s.unique_seq_to_set();
        let others = vstd::set_lib::set_int_range(0, n as int).remove(v as int);
        vstd::set_lib::lemma_int_range(0, n as int);
        let mapped = values.map(|x: usize| x as int);
        assert(vstd::relations::injective_on(|x: usize| x as int, values));
        vstd::set_lib::lemma_map_size(values, mapped, |x: usize| x as int);
        assert(mapped.subset_of(others)) by {
            assert forall|x: int| mapped.contains(x) implies others.contains(x) by {
                let u = choose|u: usize| values.contains(u) && u as int == x;
                let k = choose|k: int| 0 <= k < s.len() && s[k] == u;
                assert(s[k] != v);
            }
        }
        vstd::set_lib::lemma_len_subset(mapped, others);
        assert(false);
    }
    choose|i: int| 0 <= i < n && s[i] == v
}

} // verus!
