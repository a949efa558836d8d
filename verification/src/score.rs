//! The Nakamoto score of a set of nodes: for each feature, the Nakamoto coefficient of the actors
//! that share a value of that feature, the nodes the top actors control, and how many nodes each
//! value has.
use vstd::prelude::*;
use crate::features::{
    counts_of, known, opt_view, opt_views, spec_value_counts, value_counts, vcs_view, NodeFeature,
    NodeFeatures, ValueCount, NUM_FEATURES,
};
use crate::nakamoto::{nakamoto, seq_sum, spec_nakamoto};

verus! {

/// The score of one feature.
#[derive(Debug, Clone)]
pub struct FeatureScore {
    /// The Nakamoto coefficient of the feature.
    pub coefficient: usize,
    /// The number of nodes the top actors control.
    pub controlled_nodes: usize,
    /// Each value of the feature with the number of nodes that have it, larger counts first.
    pub value_counts: Vec<ValueCount>,
}

/// The Nakamoto score of a set of nodes, one [`FeatureScore`] per feature, in the order of
/// [`NodeFeature::variants`].
#[derive(Debug, Clone)]
pub struct NakamotoScore {
    pub features: Vec<FeatureScore>,
}

/// The largest coefficient for which scores are compared: the product of all coefficients of a
/// score then fits in 128 bits.
pub const MAX_COEFFICIENT: usize = 2097152;

/// The value of feature `f` for each node.
pub open spec fn feature_values(nodes: Seq<NodeFeatures>, f: NodeFeature) -> Seq<Option<Seq<char>>> {
    nodes.map_values(|n: NodeFeatures| n.spec_get(f))
}

/// The value counts of feature `f` among `nodes`.
pub open spec fn spec_feature_value_counts(nodes: Seq<NodeFeatures>, f: NodeFeature) -> Seq<(Seq<char>, usize)> {
    spec_value_counts(feature_values(nodes, f))
}

/// The Nakamoto coefficient of feature `f` among `nodes`, and the nodes its top actors control.
pub open spec fn spec_feature_nakamoto(nodes: Seq<NodeFeatures>, f: NodeFeature) -> (int, int) {
    spec_nakamoto(counts_of(spec_feature_value_counts(nodes, f)))
}

/// `fs` is the score of the feature at position `i` among `nodes`.
pub open spec fn feature_score_of(fs: FeatureScore, nodes: Seq<NodeFeatures>, i: int) -> bool {
    let f = NodeFeature::spec_at(i);
    &&& vcs_view(fs.value_counts@) == spec_feature_value_counts(nodes, f)
    &&& fs.coefficient as int == spec_feature_nakamoto(nodes, f).0
    &&& fs.controlled_nodes as int == spec_feature_nakamoto(nodes, f).1
}

impl NakamotoScore {
    /// One score per feature.
    pub open spec fn wf(self) -> bool {
        self.features@.len() == NUM_FEATURES
    }

    /// The coefficient of the feature at position `i`.
    pub open spec fn coef(self, i: int) -> int {
        self.features@[i].coefficient as int
    }

    /// The nodes controlled by the top actors of the feature at position `i`.
    pub open spec fn controlled(self, i: int) -> int {
        self.features@[i].controlled_nodes as int
    }

    /// The value counts of the feature at position `i`.
    pub open spec fn counts(self, i: int) -> Seq<(Seq<char>, usize)> {
        vcs_view(self.features@[i].value_counts@)
    }

    /// The score is that of `nodes`.
    pub open spec fn is_score_of(self, nodes: Seq<NodeFeatures>) -> bool {
        &&& self.wf()
        &&& forall|i: int| 0 <= i < NUM_FEATURES ==> #[trigger] feature_score_of(self.features@[i], nodes, i)
    }

    /// Every coefficient is at most [`MAX_COEFFICIENT`].
    pub open spec fn bounded(self) -> bool {
        forall|i: int| 0 <= i < NUM_FEATURES ==> #[trigger] self.coef(i) <= MAX_COEFFICIENT
    }

    /// Build the score of the nodes with the features `nodes`.
    pub fn new_from_slice_node_features(nodes: &Vec<NodeFeatures>) -> (r: NakamotoScore)
        ensures
            r.is_score_of(nodes@),
            forall|i: int|
                0 <= i < NUM_FEATURES ==> #[trigger] r.controlled(i) <= seq_sum(counts_of(r.counts(i))) && seq_sum(
                    counts_of(r.counts(i)),
                ) <= nodes@.len() && r.coef(i) <= nodes@.len(),
    {
        let variants = NodeFeature::variants();
        assert forall|i: int| 0 <= i < NUM_FEATURES implies variants@[i] == NodeFeature::spec_at(i) by {
            assert(variants@[i].spec_index() == i);
        }
        let mut features: Vec<FeatureScore> = Vec::new();
        let mut k: usize = 0;
        while k < NUM_FEATURES
            invariant
                k <= NUM_FEATURES,
                features@.len() == k,
                variants@.len() == NUM_FEATURES,
                forall|i: int| 0 <= i < NUM_FEATURES ==> variants@[i] == NodeFeature::spec_at(i),
                forall|i: int| 0 <= i < k ==> #[trigger] feature_score_of(features@[i], nodes@, i),
                forall|i: int|
                    0 <= i < k ==> #[trigger] features@[i].controlled_nodes <= seq_sum(counts_of(vcs_view(features@[i].value_counts@)))
                        && seq_sum(counts_of(vcs_view(features@[i].value_counts@))) <= nodes@.len()
                        && features@[i].coefficient <= nodes@.len(),
            decreases NUM_FEATURES - k,
        {
            let f = variants[k];
            let mut values: Vec<Option<String>> = Vec::new();
            let mut j: usize = 0;
            while j < nodes.len()
                invariant
                    j <= nodes@.len(),
                    values@.len() == j,
                    forall|i: int| 0 <= i < j ==> #[trigger] opt_view(values@[i]) == nodes@[i].spec_get(f),
                decreases nodes.len() - j,
            {
                values.push(nodes[j].get(&f));
                j = j + 1;
            }
            assert(opt_views(values@) =~= feature_values(nodes@, f));
            let vc = value_counts(&values);
            let mut counts: Vec<usize> = Vec::new();
            let mut j: usize = 0;
            while j < vc.len()
                invariant
                    j <= vc@.len(),
                    counts@ == counts_of(vcs_view(vc@)).take(j as int),
                decreases vc.len() - j,
            {
                counts.push(vc[j].1);
                j = j + 1;
                assert(counts@ =~= counts_of(vcs_view(vc@)).take(j as int));
            }
            assert(counts@ =~= counts_of(vcs_view(vc@)));
            let (coefficient, controlled_nodes) = nakamoto(&counts);
            proof {
                crate::nakamoto::lemma_nakamoto_threshold(counts@);
                crate::features::lemma_value_counts_len(opt_views(values@));
                assert(values@.len() == nodes@.len());
            }
            let ghost vcv = vcs_view(vc@);
            let ghost before = features@;
            features.push(FeatureScore { coefficient, controlled_nodes, value_counts: vc });
            proof {
                assert(f == NodeFeature::spec_at(k as int));
                assert(vcv == spec_feature_value_counts(nodes@, f));
                assert forall|i: int| 0 <= i < k + 1 implies #[trigger] feature_score_of(features@[i], nodes@, i) by {
                    if i < k {
                        assert(features@[i] == before[i]);
                        assert(feature_score_of(before[i], nodes@, i));
                        assert(before[i].controlled_nodes <= seq_sum(counts_of(vcs_view(before[i].value_counts@))));
                    } else {
                        assert(i == k);
                        assert(vcs_view(features@[i].value_counts@) == vcv);
                        assert(features@[i].coefficient == coefficient);
                        assert(counts@ == counts_of(spec_feature_value_counts(nodes@, f)));
                        assert(spec_feature_nakamoto(nodes@, f) == spec_nakamoto(counts@));
                    }
                }
            }
            k = k + 1;
        }
        NakamotoScore { features }
    }

    /// The Nakamoto coefficient of a feature.
    pub fn score_feature(&self, feature: &NodeFeature) -> (r: usize)
        requires
            self.wf(),
        ensures
            r == self.coef(feature.spec_index()),
    {
        self.features[feature.index()].coefficient
    }

    /// The number of nodes the top actors of a feature control.
    pub fn controlled_nodes(&self, feature: &NodeFeature) -> (r: usize)
        requires
            self.wf(),
        ensures
            r == self.controlled(feature.spec_index()),
    {
        self.features[feature.index()].controlled_nodes
    }

    /// Each value of a feature with the number of nodes that have it, larger counts first.
    pub fn feature_value_counts(&self, feature: &NodeFeature) -> (r: Vec<ValueCount>)
        requires
            self.wf(),
        ensures
            vcs_view(r@) == self.counts(feature.spec_index()),
    {
        let src = &self.features[feature.index()].value_counts;
        let mut out: Vec<ValueCount> = Vec::new();
        let mut j: usize = 0;
        while j < src.len()
            invariant
                j <= src@.len(),
                vcs_view(out@) == vcs_view(src@).take(j as int),
            decreases src.len() - j,
        {
            let ghost old_out = vcs_view(out@);
            out.push((src[j].0.clone(), src[j].1));
            assert(vcs_view(out@) =~= old_out.push(vcs_view(src@)[j as int]));
            j = j + 1;
            assert(vcs_view(out@) =~= vcs_view(src@).take(j as int));
        }
        assert(vcs_view(src@).take(src@.len() as int) =~= vcs_view(src@));
        out
    }

    /// The most frequent value of a feature, with its count: the first of
    /// [`NakamotoScore::feature_value_counts`].
    pub fn feature_value_counts_max(&self, feature: &NodeFeature) -> (r: Option<ValueCount>)
        requires
            self.wf(),
        ensures
            match r {
                Some(p) => self.counts(feature.spec_index()).len() > 0 && (p.0@, p.1) == self.counts(feature.spec_index())[0],
                None => self.counts(feature.spec_index()).len() == 0,
            },
    {
        let src = &self.features[feature.index()].value_counts;
        if src.len() == 0 {
            None
        } else {
            Some((src[0].0.clone(), src[0].1))
        }
    }

    /// The nodes controlled by the top node providers, then by the top countries.
    pub fn critical_features_num_nodes(&self) -> (r: Vec<usize>)
        requires
            self.wf(),
        ensures
            r@ == seq![self.controlled(0) as usize, self.controlled(4) as usize],
    {
        let mut r = Vec::new();
        r.push(self.controlled_nodes(&NodeFeature::NodeProvider));
        r.push(self.controlled_nodes(&NodeFeature::Country));
        r
    }

    /// The number of distinct node providers, then of distinct countries.
    pub fn critical_features_unique_actors(&self) -> (r: Vec<usize>)
        requires
            self.wf(),
        ensures
            r@.len() == 2,
            r@[0] == self.counts(0).len(),
            r@[1] == self.counts(4).len(),
    {
        let mut r = Vec::new();
        r.push(self.features[0].value_counts.len());
        r.push(self.features[4].value_counts.len());
        r
    }

    /// Whether every coefficient is at most [`MAX_COEFFICIENT`].
    pub fn coefficients_bounded(&self) -> (r: bool)
        requires
            self.wf(),
        ensures
            r == self.bounded(),
    {
        let mut i: usize = 0;
        while i < NUM_FEATURES
            invariant
                i <= NUM_FEATURES,
                self.wf(),
                forall|j: int| 0 <= j < i ==> #[trigger] self.coef(j) <= MAX_COEFFICIENT,
            decreases NUM_FEATURES - i,
        {
            if self.features[i].coefficient > MAX_COEFFICIENT {
                assert(self.coef(i as int) > MAX_COEFFICIENT);
                return false;
            }
            i = i + 1;
        }
        true
    }

    /// The coefficients, in the order of the features.
    pub fn coefficients(&self) -> (r: Vec<usize>)
        requires
            self.wf(),
        ensures
            r@.len() == NUM_FEATURES,
            forall|i: int| 0 <= i < NUM_FEATURES ==> #[trigger] r@[i] == self.coef(i),
    {
        let mut r: Vec<usize> = Vec::new();
        let mut i: usize = 0;
        while i < NUM_FEATURES
            invariant
                i <= NUM_FEATURES,
                self.wf(),
                r@.len() == i,
                forall|j: int| 0 <= j < i ==> #[trigger] r@[j] == self.coef(j),
            decreases NUM_FEATURES - i,
        {
            r.push(self.features[i].coefficient);
            i = i + 1;
        }
        r
    }

    /// Whether two scores are equal: the same coefficients and the same controlled nodes for
    /// every feature.
    pub open spec fn same_as(self, other: NakamotoScore) -> bool {
        forall|i: int| 0 <= i < NUM_FEATURES ==> #[trigger] self.same_at(other, i)
    }

    /// The same coefficient and controlled nodes for the feature at position `i`.
    pub open spec fn same_at(self, other: NakamotoScore, i: int) -> bool {
        self.coef(i) == other.coef(i) && self.controlled(i) == other.controlled(i)
    }

    /// Whether two scores are equal: the same coefficients and the same controlled nodes for
    /// every feature.
    pub fn eq(&self, other: &NakamotoScore) -> (r: bool)
        requires
            self.wf(),
            other.wf(),
        ensures
            r == self.same_as(*other),
    {
        let mut i: usize = 0;
        while i < NUM_FEATURES
            invariant
                i <= NUM_FEATURES,
                self.wf(),
                other.wf(),
                forall|j: int| 0 <= j < i ==> #[trigger] self.same_at(*other, j),
            decreases NUM_FEATURES - i,
        {
            if self.features[i].coefficient != other.features[i].coefficient || self.features[i].controlled_nodes
                != other.features[i].controlled_nodes {
                assert(!self.same_at(*other, i as int));
                assert(!self.same_as(*other));
                return false;
            }
            i = i + 1;
        }
        true
    }
}


/// The product of the first `n` coefficients of `s`.
pub open spec fn coef_product(s: NakamotoScore, n: int) -> int
    decreases n,
{
    if n <= 0 {
        1
    } else {
        coef_product(s, n - 1) * s.coef(n - 1)
    }
}

/// The sum of the first `n` coefficients of `s`.
pub open spec fn coef_sum(s: NakamotoScore, n: int) -> int
    decreases n,
{
    if n <= 0 {
        0
    } else {
        coef_sum(s, n - 1) + s.coef(n - 1)
    }
}

/// The number of coefficients below 3 among the first `n` of `s`.
pub open spec fn low_count(s: NakamotoScore, n: int) -> int
    decreases n,
{
    if n <= 0 {
        0
    } else {
        low_count(s, n - 1) + (if s.coef(n - 1) < 3 { 1int } else { 0int })
    }
}

/// The position of the continent feature, which the per-feature comparison skips.
pub open spec fn continent_index() -> int {
    5
}

/// The first position from `i` on, before the continent feature, where one of `a` and `b` has
/// a coefficient below 3 and the two coefficients differ; the continent position if none.
pub open spec fn first_low_difference(a: NakamotoScore, b: NakamotoScore, i: int) -> int
    decreases continent_index() - i,
{
    if i >= continent_index() {
        continent_index()
    } else if (a.coef(i) < 3 || b.coef(i) < 3) && a.coef(i) != b.coef(i) {
        i
    } else {
        first_low_difference(a, b, i + 1)
    }
}

/// `MAX_COEFFICIENT` to the power `n`.
pub open spec fn coef_bound(n: int) -> int
    decreases n,
{
    if n <= 0 {
        1
    } else {
        coef_bound(n - 1) * MAX_COEFFICIENT
    }
}

proof fn lemma_coef_product_bound(s: NakamotoScore, n: int)
    requires
        s.wf(),
        s.bounded(),
        0 <= n <= NUM_FEATURES,
    ensures
        0 <= coef_product(s, n) <= coef_bound(n),
    decreases n,
{
    if n > 0 {
        lemma_coef_product_bound(s, n - 1);
        let p = coef_product(s, n - 1);
        let c = s.coef(n - 1);
        let b = coef_bound(n - 1);
        assert(0 <= c <= MAX_COEFFICIENT);
        assert(0 <= p * c <= b * MAX_COEFFICIENT) by (nonlinear_arith)
            requires
                0 <= p <= b,
                0 <= c <= MAX_COEFFICIENT,
        ;
    }
}

proof fn lemma_coef_sum_bound(s: NakamotoScore, n: int)
    requires
        s.wf(),
        s.bounded(),
        0 <= n <= NUM_FEATURES,
    ensures
        0 <= coef_sum(s, n) <= n * MAX_COEFFICIENT,
    decreases n,
{
    if n > 0 {
        lemma_coef_sum_bound(s, n - 1);
    }
}

proof fn lemma_low_count_bound(s: NakamotoScore, n: int)
    requires
        0 <= n,
    ensures
        0 <= low_count(s, n) <= n,
    decreases n,
{
    if n > 0 {
        lemma_low_count_bound(s, n - 1);
    }
}

impl NakamotoScore {
    /// The product of all coefficients.
    pub fn coefficient_product(&self) -> (r: u128)
        requires
            self.wf(),
            self.bounded(),
        ensures
            r == coef_product(*self, NUM_FEATURES as int),
    {
        assert(coef_bound(NUM_FEATURES as int) == 0x4000_0000_0000_0000_0000_0000_0000_0000) by {
            reveal_with_fuel(coef_bound, 7);
        }
        let mut p: u128 = 1;
        let mut i: usize = 0;
        while i < NUM_FEATURES
            invariant
                i <= NUM_FEATURES,
                self.wf(),
                self.bounded(),
                p == coef_product(*self, i as int),
                coef_bound(NUM_FEATURES as int) == 0x4000_0000_0000_0000_0000_0000_0000_0000,
            decreases NUM_FEATURES - i,
        {
            proof {
                lemma_coef_product_bound(*self, i as int + 1);
                lemma_coef_bound_monotone(i as int + 1, NUM_FEATURES as int);
            }
            p = p * (self.features[i].coefficient as u128);
            i = i + 1;
        }
        p
    }

    /// A copy of the score: the same coefficients, controlled nodes and value counts.
    pub fn copied(&self) -> (r: NakamotoScore)
        ensures
            r.features@.len() == self.features@.len(),
            forall|i: int|
                0 <= i < self.features@.len() ==> #[trigger] r.coef(i) == self.coef(i) && r.controlled(i) == self.controlled(i)
                    && r.counts(i) == self.counts(i),
    {
        let mut features: Vec<FeatureScore> = Vec::new();
        let mut k: usize = 0;
        while k < self.features.len()
            invariant
                k <= self.features@.len(),
                features@.len() == k,
                forall|i: int|
                    0 <= i < k ==> (#[trigger] features@[i]).coefficient == self.features@[i].coefficient
                        && features@[i].controlled_nodes == self.features@[i].controlled_nodes && vcs_view(
                        features@[i].value_counts@,
                    ) == vcs_view(self.features@[i].value_counts@),
            decreases self.features.len() - k,
        {
            let f = &self.features[k];
            let mut vc: Vec<ValueCount> = Vec::new();
            let mut j: usize = 0;
            while j < f.value_counts.len()
                invariant
                    j <= f.value_counts@.len(),
                    vcs_view(vc@) == vcs_view(f.value_counts@.take(j as int)),
                decreases f.value_counts.len() - j,
            {
                let ghost before = vc@;
                vc.push((f.value_counts[j].0.clone(), f.value_counts[j].1));
                assert(vcs_view(vc@) =~= vcs_view(before).push((f.value_counts@[j as int].0@, f.value_counts@[j as int].1)));
                assert(vcs_view(f.value_counts@.take(j as int + 1)) =~= vcs_view(f.value_counts@.take(j as int)).push(
                    (f.value_counts@[j as int].0@, f.value_counts@[j as int].1),
                ));
                j = j + 1;
            }
            assert(f.value_counts@.take(f.value_counts@.len() as int) =~= f.value_counts@);
            let ghost before = features@;
            features.push(FeatureScore { coefficient: f.coefficient, controlled_nodes: f.controlled_nodes, value_counts: vc });
            assert forall|i: int| 0 <= i < k + 1 implies (#[trigger] features@[i]).coefficient == self.features@[i].coefficient
                && features@[i].controlled_nodes == self.features@[i].controlled_nodes && vcs_view(features@[i].value_counts@)
                == vcs_view(self.features@[i].value_counts@) by {
                if i < k {
                    assert(features@[i] == before[i]);
                }
            }
            k = k + 1;
        }
        NakamotoScore { features }
    }

    /// The sum of all coefficients.
    pub fn coefficient_sum(&self) -> (r: usize)
        requires
            self.wf(),
            self.bounded(),
        ensures
            r == coef_sum(*self, NUM_FEATURES as int),
    {
        let mut t: usize = 0;
        let mut i: usize = 0;
        while i < NUM_FEATURES
            invariant
                i <= NUM_FEATURES,
                self.wf(),
                self.bounded(),
                t == coef_sum(*self, i as int),
            decreases NUM_FEATURES - i,
        {
            proof {
                lemma_coef_sum_bound(*self, i as int + 1);
            }
            t = t + self.features[i].coefficient;
            i = i + 1;
        }
        t
    }

    /// The number of coefficients below 3.
    pub fn low_coefficients(&self) -> (r: usize)
        requires
            self.wf(),
        ensures
            r == low_count(*self, NUM_FEATURES as int),
    {
        let mut t: usize = 0;
        let mut i: usize = 0;
        while i < NUM_FEATURES
            invariant
                i <= NUM_FEATURES,
                self.wf(),
                t == low_count(*self, i as int),
            decreases NUM_FEATURES - i,
        {
            proof {
                lemma_low_count_bound(*self, i as int + 1);
            }
            if self.features[i].coefficient < 3 {
                t = t + 1;
            }
            i = i + 1;
        }
        t
    }

    /// The first feature before the continent where one of the two scores has a coefficient
    /// below 3 and the coefficients differ; the continent's position if there is none.
    pub fn first_low_difference(&self, other: &NakamotoScore) -> (r: usize)
        requires
            self.wf(),
            other.wf(),
        ensures
            r == first_low_difference(*self, *other, 0),
            r <= continent_index(),
    {
        let mut i: usize = 0;
        while i < 5
            invariant
                i <= 5,
                self.wf(),
                other.wf(),
                first_low_difference(*self, *other, 0) == first_low_difference(*self, *other, i as int),
            decreases 5 - i,
        {
            let a = self.features[i].coefficient;
            let b = other.features[i].coefficient;
            if (a < 3 || b < 3) && a != b {
                return i;
            }
            i = i + 1;
        }
        5
    }
}

proof fn lemma_coef_bound_monotone(i: int, j: int)
    requires
        0 <= i <= j,
    ensures
        1 <= coef_bound(i) <= coef_bound(j),
    decreases j,
{
    if j > 0 {
        if i < j {
            lemma_coef_bound_monotone(i, j - 1);
        } else {
            lemma_coef_bound_monotone(i - 1, j - 1);
        }
        assert(coef_bound(j - 1) * MAX_COEFFICIENT >= coef_bound(j - 1)) by (nonlinear_arith)
            requires
                coef_bound(j - 1) >= 1,
        ;
    }
}

} // verus!
