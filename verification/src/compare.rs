//! Which of two Nakamoto scores is more decentralized, and why.
use vstd::prelude::*;
use std::cmp::Ordering;
use crate::features::{NodeFeature, NodeFeatures};
use crate::score::{
    feature_score_of, coef_product, coef_sum, first_low_difference, low_count, continent_index, NakamotoScore,
};

verus! {

/// The criterion that decided a comparison of two scores, with the values compared.
#[derive(Debug, Clone, Copy, PartialEq, Eq)]
pub enum ScoreDifference {
    /// The average of the base-2 logarithms of the coefficients differs (a score with a zero
    /// coefficient has no such average and comes first).
    AverageLog2,
    /// The nodes controlled by the top actors of a critical feature differ.
    ControlledNodes { feature: NodeFeature, self_nodes: usize, other_nodes: usize },
    /// The number of distinct actors of a critical feature differs.
    UniqueActors { feature: NodeFeature, self_actors: usize, other_actors: usize },
    /// The number of coefficients below 3 differs.
    LowCoefficients { self_count: usize, other_count: usize },
    /// The coefficient of a feature differs where one of the two is below 3.
    FeatureCoefficient { feature: NodeFeature, self_coefficient: usize, other_coefficient: usize },
    /// The average of the coefficients differs.
    LinearAverage,
    /// No criterion tells the two scores apart.
    Equal,
}

/// The sign of `x`.
pub open spec fn sign(x: int) -> int {
    if x < 0 {
        -1
    } else if x > 0 {
        1
    } else {
        0
    }
}

/// The lexicographic comparison of the pairs `(a0, a1)` and `(b0, b1)`, as a sign.
pub open spec fn lex2(a0: int, a1: int, b0: int, b1: int) -> int {
    if a0 != b0 {
        sign(a0 - b0)
    } else {
        sign(a1 - b1)
    }
}

/// How `a` compares with `b` (positive: `a` is more decentralized) and the criterion that
/// decided it. The criteria, in turn: the product of the coefficients (the average of their
/// logarithms); the nodes controlled by the top node providers, then countries (fewer is
/// better); the distinct node providers, then countries (more is better); the number of
/// coefficients below 3 (fewer is better); the first feature before the continent where a
/// coefficient below 3 differs (compared as other against self); the sum of the coefficients.
pub open spec fn score_difference(a: NakamotoScore, b: NakamotoScore) -> (int, ScoreDifference) {
    let n = 6int;
    let pa = coef_product(a, n);
    let pb = coef_product(b, n);
    if pa != pb {
        (sign(pa - pb), ScoreDifference::AverageLog2)
    } else if a.controlled(0) != b.controlled(0) || a.controlled(4) != b.controlled(4) {
        let i = if a.controlled(0) != b.controlled(0) { 0int } else { 4int };
        (
            lex2(b.controlled(0), b.controlled(4), a.controlled(0), a.controlled(4)),
            ScoreDifference::ControlledNodes {
                feature: NodeFeature::spec_at(i),
                self_nodes: a.controlled(i) as usize,
                other_nodes: b.controlled(i) as usize,
            },
        )
    } else if a.counts(0).len() != b.counts(0).len() || a.counts(4).len() != b.counts(4).len() {
        let i = if a.counts(0).len() != b.counts(0).len() { 0int } else { 4int };
        (
            lex2(a.counts(0).len() as int, a.counts(4).len() as int, b.counts(0).len() as int, b.counts(4).len() as int),
            ScoreDifference::UniqueActors {
                feature: NodeFeature::spec_at(i),
                self_actors: a.counts(i).len() as usize,
                other_actors: b.counts(i).len() as usize,
            },
        )
    } else if low_count(a, n) != low_count(b, n) {
        (
            sign(low_count(b, n) - low_count(a, n)),
            ScoreDifference::LowCoefficients {
                self_count: low_count(a, n) as usize,
                other_count: low_count(b, n) as usize,
            },
        )
    } else if first_low_difference(a, b, 0) < continent_index() {
        let i = first_low_difference(a, b, 0);
        (
            sign(b.coef(i) - a.coef(i)),
            ScoreDifference::FeatureCoefficient {
                feature: NodeFeature::spec_at(i),
                self_coefficient: a.coef(i) as usize,
                other_coefficient: b.coef(i) as usize,
            },
        )
    } else if coef_sum(a, n) != coef_sum(b, n) {
        (sign(coef_sum(a, n) - coef_sum(b, n)), ScoreDifference::LinearAverage)
    } else {
        (0, ScoreDifference::Equal)
    }
}


/// The ordering whose sign is `s`.
pub open spec fn ordering_of(s: int) -> Ordering {
    if s < 0 {
        Ordering::Less
    } else if s > 0 {
        Ordering::Greater
    } else {
        Ordering::Equal
    }
}

fn order_of_usize(a: usize, b: usize) -> (r: Ordering)
    ensures
        r == ordering_of(sign(a - b)),
{
    if a < b {
        Ordering::Less
    } else if a > b {
        Ordering::Greater
    } else {
        Ordering::Equal
    }
}

fn order_of_u128(a: u128, b: u128) -> (r: Ordering)
    ensures
        r == ordering_of(sign(a - b)),
{
    if a < b {
        Ordering::Less
    } else if a > b {
        Ordering::Greater
    } else {
        Ordering::Equal
    }
}

impl NakamotoScore {
    /// How this score compares with `other` (`Greater`: this one is more decentralized) and the
    /// criterion that decided it (see [`score_difference`]).
    pub fn describe_difference_from(&self, other: &NakamotoScore) -> (r: (Ordering, ScoreDifference))
        requires
            self.wf(),
            other.wf(),
            self.bounded(),
            other.bounded(),
        ensures
            r.0 == ordering_of(score_difference(*self, *other).0),
            r.1 == score_difference(*self, *other).1,
    {
        let pa = self.coefficient_product();
        let pb = other.coefficient_product();
        if pa != pb {
            return (order_of_u128(pa, pb), ScoreDifference::AverageLog2);
        }
        let sn = self.critical_features_num_nodes();
        let on = other.critical_features_num_nodes();
        if sn[0] != on[0] || sn[1] != on[1] {
            let c = if on[0] != sn[0] {
                order_of_usize(on[0], sn[0])
            } else {
                order_of_usize(on[1], sn[1])
            };
            let d = if sn[0] != on[0] {
                ScoreDifference::ControlledNodes { feature: NodeFeature::NodeProvider, self_nodes: sn[0], other_nodes: on[0] }
            } else {
                ScoreDifference::ControlledNodes { feature: NodeFeature::Country, self_nodes: sn[1], other_nodes: on[1] }
            };
            return (c, d);
        }
        let su = self.critical_features_unique_actors();
        let ou = other.critical_features_unique_actors();
        if su[0] != ou[0] || su[1] != ou[1] {
            let c = if su[0] != ou[0] {
                order_of_usize(su[0], ou[0])
            } else {
                order_of_usize(su[1], ou[1])
            };
            let d = if su[0] != ou[0] {
                ScoreDifference::UniqueActors { feature: NodeFeature::NodeProvider, self_actors: su[0], other_actors: ou[0] }
            } else {
                ScoreDifference::UniqueActors { feature: NodeFeature::Country, self_actors: su[1], other_actors: ou[1] }
            };
            return (c, d);
        }
        let sl = self.low_coefficients();
        let ol = other.low_coefficients();
        assert(sl == low_count(*self, 6));
        assert(ol == low_count(*other, 6));
        if sl != ol {
            return (order_of_usize(ol, sl), ScoreDifference::LowCoefficients { self_count: sl, other_count: ol });
        }
        let k = self.first_low_difference(other);
        if k < 5 {
            let a = self.features[k].coefficient;
            let b = other.features[k].coefficient;
            let feature = NodeFeature::at(k);
            return (
                order_of_usize(b, a),
                ScoreDifference::FeatureCoefficient { feature, self_coefficient: a, other_coefficient: b },
            );
        }
        let ss = self.coefficient_sum();
        let os = other.coefficient_sum();
        if ss != os {
            (order_of_usize(ss, os), ScoreDifference::LinearAverage)
        } else {
            (Ordering::Equal, ScoreDifference::Equal)
        }
    }
}


proof fn lemma_first_low_difference_symmetric(a: NakamotoScore, b: NakamotoScore, i: int)
    ensures
        first_low_difference(a, b, i) == first_low_difference(b, a, i),
        first_low_difference(a, a, i) == continent_index(),
    decreases continent_index() - i,
{
    if i < continent_index() {
        lemma_first_low_difference_symmetric(a, b, i + 1);
    }
}

/// Comparing two scores the other way round gives the opposite answer, and a score compares
/// equal to itself: the comparison is a consistent ordering of scores.
pub proof fn lemma_score_difference_antisymmetric(a: NakamotoScore, b: NakamotoScore)
    ensures
        score_difference(a, b).0 == -score_difference(b, a).0,
        score_difference(a, a).0 == 0,
        score_difference(a, a).1 == ScoreDifference::Equal,
{
    lemma_first_low_difference_symmetric(a, b, 0);
}


impl NakamotoScore {
    /// The criterion that tells this score apart from `other` (see [`score_difference`]).
    pub fn difference_from(&self, other: &NakamotoScore) -> (r: ScoreDifference)
        requires
            self.wf(),
            other.wf(),
            self.bounded(),
            other.bounded(),
        ensures
            r == score_difference(*self, *other).1,
    {
        let (_, d) = self.describe_difference_from(other);
        d
    }

    /// Whether this score is more decentralized than `other` (see [`score_difference`]).
    pub fn is_better_than(&self, other: &NakamotoScore) -> (r: bool)
        requires
            self.wf(),
            other.wf(),
            self.bounded(),
            other.bounded(),
        ensures
            r == (score_difference(*self, *other).0 > 0),
    {
        let (o, _) = self.describe_difference_from(other);
        match o {
            Ordering::Greater => true,
            _ => false,
        }
    }
}

/// Two scores with the same coefficients, controlled nodes and value counts for every feature.
pub open spec fn same_view(a: NakamotoScore, b: NakamotoScore) -> bool {
    forall|i: int| 0 <= i < 6 ==> #[trigger] a.coef(i) == b.coef(i) && a.controlled(i) == b.controlled(i) && a.counts(i) == b.counts(i)
}

/// A copy of a score (see [`NakamotoScore::copied`]) has the same view.
pub proof fn lemma_same_view_of_copy(a: NakamotoScore, b: NakamotoScore)
    requires
        b.wf(),
        a.features@.len() == b.features@.len(),
        forall|i: int|
            0 <= i < b.features@.len() ==> #[trigger] a.coef(i) == b.coef(i) && a.controlled(i) == b.controlled(i) && a.counts(i)
                == b.counts(i),
    ensures
        same_view(a, b),
{
    assert forall|i: int| 0 <= i < 6 implies #[trigger] a.coef(i) == b.coef(i) && a.controlled(i) == b.controlled(i) && a.counts(i)
        == b.counts(i) by {
        assert(a.coef(i) == b.coef(i));
    }
}

proof fn lemma_coef_fns_congruent(a: NakamotoScore, b: NakamotoScore, n: int)
    requires
        same_view(a, b),
        n <= 6,
    ensures
        coef_product(a, n) == coef_product(b, n),
        coef_sum(a, n) == coef_sum(b, n),
        low_count(a, n) == low_count(b, n),
    decreases n,
{
    if n > 0 {
        lemma_coef_fns_congruent(a, b, n - 1);
        assert(a.coef(n - 1) == b.coef(n - 1));
    }
}

proof fn lemma_first_low_difference_congruent(a: NakamotoScore, a2: NakamotoScore, b: NakamotoScore, b2: NakamotoScore, i: int)
    requires
        same_view(a, a2),
        same_view(b, b2),
        0 <= i,
    ensures
        first_low_difference(a, b, i) == first_low_difference(a2, b2, i),
    decreases continent_index() - i,
{
    if i < continent_index() {
        assert(a.coef(i) == a2.coef(i) && b.coef(i) == b2.coef(i));
        lemma_first_low_difference_congruent(a, a2, b, b2, i + 1);
    }
}

proof fn lemma_first_low_difference_from(a: NakamotoScore, b: NakamotoScore, i: int)
    requires
        0 <= i,
    ensures
        i <= first_low_difference(a, b, i) || first_low_difference(a, b, i) == continent_index(),
        0 <= first_low_difference(a, b, i) <= continent_index() || i > continent_index(),
    decreases continent_index() - i,
{
    if i < continent_index() {
        lemma_first_low_difference_from(a, b, i + 1);
    }
}

/// Scores with the same coefficients, controlled nodes and value counts compare alike.
pub proof fn lemma_score_difference_congruent(a: NakamotoScore, a2: NakamotoScore, b: NakamotoScore, b2: NakamotoScore)
    requires
        same_view(a, a2),
        same_view(b, b2),
    ensures
        score_difference(a, b) == score_difference(a2, b2),
{
    lemma_coef_fns_congruent(a, a2, 6);
    lemma_coef_fns_congruent(b, b2, 6);
    lemma_first_low_difference_congruent(a, a2, b, b2, 0);
    assert(a.coef(0) == a2.coef(0) && a.coef(4) == a2.coef(4));
    assert(b.coef(0) == b2.coef(0) && b.coef(4) == b2.coef(4));
    assert(a.controlled(0) == a2.controlled(0) && a.controlled(4) == a2.controlled(4));
    assert(b.controlled(0) == b2.controlled(0) && b.controlled(4) == b2.controlled(4));
    assert(a.counts(0) == a2.counts(0) && a.counts(4) == a2.counts(4));
    assert(b.counts(0) == b2.counts(0) && b.counts(4) == b2.counts(4));
    let k = first_low_difference(a, b, 0);
    lemma_first_low_difference_from(a, b, 0);
    if 0 <= k < 6 {
        assert(a.coef(k) == a2.coef(k) && b.coef(k) == b2.coef(k));
    }
}

/// Two scores of the same nodes have the same coefficients, controlled nodes and value counts.
pub proof fn lemma_scores_of_same_nodes(a: NakamotoScore, b: NakamotoScore, nodes: Seq<NodeFeatures>)
    requires
        a.is_score_of(nodes),
        b.is_score_of(nodes),
    ensures
        same_view(a, b),
{
    assert forall|i: int| 0 <= i < 6 implies #[trigger] a.coef(i) == b.coef(i) && a.controlled(i) == b.controlled(i)
        && a.counts(i) == b.counts(i) by {
        assert(feature_score_of(a.features@[i], nodes, i));
        assert(feature_score_of(b.features@[i], nodes, i));
    }
}

} // verus!
