//! Nodes, their features (provider, operator, data center, ...), and how often each value of a
//! feature occurs among a set of nodes.
use vstd::prelude::*;
use vstd::relations::{sorted_by, total_ordering};
use vstd::string::StrSliceExecFns;
use crate::nakamoto::seq_sum;

verus! {

broadcast use vstd::seq_lib::group_to_multiset_ensures, vstd::multiset::group_multiset_axioms;

/// A feature of a node, along which the control of a subnet is measured.
#[derive(Debug, Clone, Copy, PartialEq, Eq, Hash)]
pub enum NodeFeature {
    NodeProvider,
    DataCenter,
    DataCenterOwner,
    City,
    Country,
    Continent,
}

/// The number of features.
pub const NUM_FEATURES: usize = 6;

impl NodeFeature {
    /// Position of the feature among [`NodeFeature::variants`].
    pub open spec fn spec_index(self) -> int {
        match self {
            NodeFeature::NodeProvider => 0,
            NodeFeature::DataCenter => 1,
            NodeFeature::DataCenterOwner => 2,
            NodeFeature::City => 3,
            NodeFeature::Country => 4,
            NodeFeature::Continent => 5,
        }
    }

    /// The feature at position `i`.
    pub open spec fn spec_at(i: int) -> NodeFeature {
        if i == 0 {
            NodeFeature::NodeProvider
        } else if i == 1 {
            NodeFeature::DataCenter
        } else if i == 2 {
            NodeFeature::DataCenterOwner
        } else if i == 3 {
            NodeFeature::City
        } else if i == 4 {
            NodeFeature::Country
        } else {
            NodeFeature::Continent
        }
    }

    /// Position of the feature among [`NodeFeature::variants`].
    pub fn index(&self) -> (r: usize)
        ensures
            r == self.spec_index(),
            r < NUM_FEATURES,
            NodeFeature::spec_at(r as int) == *self,
    {
        match self {
            NodeFeature::NodeProvider => 0,
            NodeFeature::DataCenter => 1,
            NodeFeature::DataCenterOwner => 2,
            NodeFeature::City => 3,
            NodeFeature::Country => 4,
            NodeFeature::Continent => 5,
        }
    }

    /// The feature at position `i`.
    pub fn at(i: usize) -> (r: NodeFeature)
        requires
            i < NUM_FEATURES,
        ensures
            r == NodeFeature::spec_at(i as int),
    {
        if i == 0 {
            NodeFeature::NodeProvider
        } else if i == 1 {
            NodeFeature::DataCenter
        } else if i == 2 {
            NodeFeature::DataCenterOwner
        } else if i == 3 {
            NodeFeature::City
        } else if i == 4 {
            NodeFeature::Country
        } else {
            NodeFeature::Continent
        }
    }

    /// All features, in their order.
    pub fn variants() -> (r: Vec<NodeFeature>)
        ensures
            r@.len() == NUM_FEATURES,
            forall|i: int| 0 <= i < NUM_FEATURES ==> r@[i] == NodeFeature::spec_at(i) && #[trigger] r@[i].spec_index() == i,
    {
        let mut v = Vec::new();
        v.push(NodeFeature::NodeProvider);
        v.push(NodeFeature::DataCenter);
        v.push(NodeFeature::DataCenterOwner);
        v.push(NodeFeature::City);
        v.push(NodeFeature::Country);
        v.push(NodeFeature::Continent);
        v
    }

    /// The name of the feature, in snake case.
    pub open spec fn spec_name(self) -> Seq<char> {
        match self {
            NodeFeature::NodeProvider => "node_provider"@,
            NodeFeature::DataCenter => "data_center"@,
            NodeFeature::DataCenterOwner => "data_center_owner"@,
            NodeFeature::City => "city"@,
            NodeFeature::Country => "country"@,
            NodeFeature::Continent => "continent"@,
        }
    }

    /// The name of the feature, in snake case.
    pub fn name(&self) -> (r: String)
        ensures
            r@ == self.spec_name(),
    {
        match self {
            NodeFeature::NodeProvider => String::from_str("node_provider"),
            NodeFeature::DataCenter => String::from_str("data_center"),
            NodeFeature::DataCenterOwner => String::from_str("data_center_owner"),
            NodeFeature::City => String::from_str("city"),
            NodeFeature::Country => String::from_str("country"),
            NodeFeature::Continent => String::from_str("continent"),
        }
    }
}

/// The value of each feature of a node, where known.
#[derive(Debug, Clone)]
pub struct NodeFeatures {
    pub node_provider: Option<String>,
    pub data_center: Option<String>,
    pub data_center_owner: Option<String>,
    pub city: Option<String>,
    pub country: Option<String>,
    pub continent: Option<String>,
}

/// The view of an optional text.
pub open spec fn opt_view(o: Option<String>) -> Option<Seq<char>> {
    match o {
        Some(s) => Some(s@),
        None => None,
    }
}

/// A copy of an optional text.
pub fn clone_opt(o: &Option<String>) -> (r: Option<String>)
    ensures
        r == *o,
{
    match o {
        Some(s) => Some(s.clone()),
        None => None,
    }
}

impl NodeFeatures {
    /// A copy of the features.
    pub fn copied(&self) -> (r: NodeFeatures)
        ensures
            r == *self,
    {
        NodeFeatures {
            node_provider: clone_opt(&self.node_provider),
            data_center: clone_opt(&self.data_center),
            data_center_owner: clone_opt(&self.data_center_owner),
            city: clone_opt(&self.city),
            country: clone_opt(&self.country),
            continent: clone_opt(&self.continent),
        }
    }

    /// The value of a feature.
    pub open spec fn spec_get(&self, feature: NodeFeature) -> Option<Seq<char>> {
        opt_view(
            match feature {
                NodeFeature::NodeProvider => self.node_provider,
                NodeFeature::DataCenter => self.data_center,
                NodeFeature::DataCenterOwner => self.data_center_owner,
                NodeFeature::City => self.city,
                NodeFeature::Country => self.country,
                NodeFeature::Continent => self.continent,
            },
        )
    }

    /// The value of a feature.
    pub fn get(&self, feature: &NodeFeature) -> (r: Option<String>)
        ensures
            opt_view(r) == self.spec_get(*feature),
    {
        match feature {
            NodeFeature::NodeProvider => clone_opt(&self.node_provider),
            NodeFeature::DataCenter => clone_opt(&self.data_center),
            NodeFeature::DataCenterOwner => clone_opt(&self.data_center_owner),
            NodeFeature::City => clone_opt(&self.city),
            NodeFeature::Country => clone_opt(&self.country),
            NodeFeature::Continent => clone_opt(&self.continent),
        }
    }

    /// Every feature with the same value `value`.
    pub fn new_test_feature_set(value: &str) -> (r: NodeFeatures)
        ensures
            forall|f: NodeFeature| r.spec_get(f) == Some(value@),
    {
        NodeFeatures {
            node_provider: Some(String::from_str(value)),
            data_center: Some(String::from_str(value)),
            data_center_owner: Some(String::from_str(value)),
            city: Some(String::from_str(value)),
            country: Some(String::from_str(value)),
            continent: Some(String::from_str(value)),
        }
    }

    /// The same features, except `feature`, which has the value `value`.
    pub fn with_feature_value(self, feature: &NodeFeature, value: &str) -> (r: NodeFeatures)
        ensures
            r.spec_get(*feature) == Some(value@),
            forall|f: NodeFeature| f != *feature ==> r.spec_get(f) == self.spec_get(f),
    {
        let v = Some(String::from_str(value));
        match feature {
            NodeFeature::NodeProvider => NodeFeatures { node_provider: v, ..self },
            NodeFeature::DataCenter => NodeFeatures { data_center: v, ..self },
            NodeFeature::DataCenterOwner => NodeFeatures { data_center_owner: v, ..self },
            NodeFeature::City => NodeFeatures { city: v, ..self },
            NodeFeature::Country => NodeFeatures { country: v, ..self },
            NodeFeature::Continent => NodeFeatures { continent: v, ..self },
        }
    }
}

/// The order of texts: lexicographic by character (for UTF-8 text, the same as by byte).
pub open spec fn str_le(a: Seq<char>, b: Seq<char>) -> bool
    decreases a.len(),
{
    if a.len() == 0 {
        true
    } else if b.len() == 0 {
        false
    } else if (a[0] as int) < (b[0] as int) {
        true
    } else if (a[0] as int) > (b[0] as int) {
        false
    } else {
        str_le(a.drop_first(), b.drop_first())
    }
}

/// Texts that come no later than each other are equal.
pub proof fn lemma_str_le_antisymmetric(a: Seq<char>, b: Seq<char>)
    requires
        str_le(a, b),
        str_le(b, a),
    ensures
        a == b,
    decreases a.len(),
{
    if a.len() > 0 && b.len() > 0 {
        assert((a[0] as int) == (b[0] as int));
        assert(a[0] == b[0]);
        lemma_str_le_antisymmetric(a.drop_first(), b.drop_first());
        assert(a =~= seq![a[0]] + a.drop_first());
        assert(b =~= seq![b[0]] + b.drop_first());
    } else {
        assert(a =~= b);
    }
}

/// The order of texts is transitive.
pub proof fn lemma_str_le_transitive(a: Seq<char>, b: Seq<char>, c: Seq<char>)
    requires
        str_le(a, b),
        str_le(b, c),
    ensures
        str_le(a, c),
    decreases a.len(),
{
    if a.len() > 0 && b.len() > 0 && c.len() > 0 && (a[0] as int) == (b[0] as int) && (b[0] as int)
        == (c[0] as int) {
        lemma_str_le_transitive(a.drop_first(), b.drop_first(), c.drop_first());
    }
}

/// The order of texts is total and reflexive.
pub proof fn lemma_str_le_total(a: Seq<char>, b: Seq<char>)
    ensures
        str_le(a, b) || str_le(b, a),
        str_le(a, a),
    decreases a.len(),
{
    if a.len() > 0 && b.len() > 0 {
        lemma_str_le_total(a.drop_first(), b.drop_first());
    }
    if a.len() > 0 {
        lemma_str_le_total(a.drop_first(), a.drop_first());
    }
}

/// Whether `a` comes no later than `b` in the order of texts.
pub fn str_less_eq(a: &str, b: &str) -> (r: bool)
    ensures
        r == str_le(a@, b@),
{
    let la = a.unicode_len();
    let lb = b.unicode_len();
    let mut i: usize = 0;
    assert(a@.skip(0) =~= a@);
    assert(b@.skip(0) =~= b@);
    while i < la && i < lb
        invariant
            i <= la,
            i <= lb,
            la == a@.len(),
            lb == b@.len(),
            str_le(a@, b@) == str_le(a@.skip(i as int), b@.skip(i as int)),
        decreases la - i,
    {
        let ca = a.get_char(i);
        let cb = b.get_char(i);
        proof {
            assert(a@.skip(i as int)[0] == ca);
            assert(b@.skip(i as int)[0] == cb);
            assert(a@.skip(i as int).drop_first() =~= a@.skip(i as int + 1));
            assert(b@.skip(i as int).drop_first() =~= b@.skip(i as int + 1));
        }
        if (ca as u32) < (cb as u32) {
            return true;
        }
        if (ca as u32) > (cb as u32) {
            return false;
        }
        i = i + 1;
    }
    assert(i == la ==> a@.skip(i as int).len() == 0);
    assert(i < la ==> b@.skip(i as int).len() == 0 && a@.skip(i as int).len() > 0);
    i == la
}

/// A value of a feature and the number of nodes that have it.
pub type ValueCount = (String, usize);

/// The view of a value count.
pub open spec fn vc_view(p: ValueCount) -> (Seq<char>, usize) {
    (p.0@, p.1)
}

/// The views of value counts.
pub open spec fn vcs_view(s: Seq<ValueCount>) -> Seq<(Seq<char>, usize)> {
    s.map_values(|p: ValueCount| vc_view(p))
}

/// The order of value counts: larger counts first, and equal counts by value.
pub open spec fn vc_leq() -> spec_fn((Seq<char>, usize), (Seq<char>, usize)) -> bool {
    |a: (Seq<char>, usize), b: (Seq<char>, usize)| a.1 > b.1 || (a.1 == b.1 && str_le(a.0, b.0))
}

proof fn lemma_vc_leq_total()
    ensures
        total_ordering(vc_leq()),
{
    assert forall|a: (Seq<char>, usize)| #[trigger] vc_leq()(a, a) by {
        lemma_str_le_total(a.0, a.0);
    }
    assert forall|a: (Seq<char>, usize), b: (Seq<char>, usize)| #[trigger] vc_leq()(a, b) && #[trigger] vc_leq()(b, a) implies a == b by {
        lemma_str_le_antisymmetric(a.0, b.0);
    }
    assert forall|a: (Seq<char>, usize), b: (Seq<char>, usize), c: (Seq<char>, usize)| #[trigger] vc_leq()(a, b) && #[trigger] vc_leq()(b, c) implies vc_leq()(a, c) by {
        if a.1 == b.1 && b.1 == c.1 {
            lemma_str_le_transitive(a.0, b.0, c.0);
        }
    }
    assert forall|a: (Seq<char>, usize), b: (Seq<char>, usize)| #[trigger] vc_leq()(a, b) || #[trigger] vc_leq()(b, a) by {
        lemma_str_le_total(a.0, b.0);
    }
}

/// The number of values equal to `v`.
pub open spec fn occurrences(values: Seq<Option<Seq<char>>>, v: Seq<char>) -> nat
    decreases values.len(),
{
    if values.len() == 0 {
        0
    } else {
        occurrences(values.drop_last(), v) + (if values.last() == Some(v) { 1nat } else { 0nat })
    }
}

/// The distinct known values, in the order of their first occurrence.
pub open spec fn distinct_values(values: Seq<Option<Seq<char>>>) -> Seq<Seq<char>>
    decreases values.len(),
{
    if values.len() == 0 {
        Seq::empty()
    } else {
        let d = distinct_values(values.drop_last());
        match values.last() {
            Some(v) => if d.contains(v) { d } else { d.push(v) },
            None => d,
        }
    }
}

/// Each known value with the number of nodes that have it, larger counts first and equal counts
/// by value.
pub open spec fn spec_value_counts(values: Seq<Option<Seq<char>>>) -> Seq<(Seq<char>, usize)> {
    distinct_values(values).map_values(|v: Seq<char>| (v, occurrences(values, v) as usize)).sort_by(vc_leq())
}


/// The views of optional texts.
pub open spec fn opt_views(values: Seq<Option<String>>) -> Seq<Option<Seq<char>>> {
    values.map_values(|o: Option<String>| opt_view(o))
}

/// Each of the values `d` with the number of its occurrences in `values`.
pub open spec fn counted(values: Seq<Option<Seq<char>>>, d: Seq<Seq<char>>) -> Seq<(Seq<char>, usize)> {
    d.map_values(|v: Seq<char>| (v, occurrences(values, v) as usize))
}

/// The counts of value counts.
pub open spec fn counts_of(s: Seq<(Seq<char>, usize)>) -> Seq<usize> {
    s.map_values(|p: (Seq<char>, usize)| p.1)
}

/// The number of known values.
pub open spec fn known(values: Seq<Option<Seq<char>>>) -> nat
    decreases values.len(),
{
    if values.len() == 0 {
        0
    } else {
        known(values.drop_last()) + (if values.last() is Some { 1nat } else { 0nat })
    }
}

proof fn lemma_known_le_len(values: Seq<Option<Seq<char>>>)
    ensures
        known(values) <= values.len(),
    decreases values.len(),
{
    if values.len() > 0 {
        lemma_known_le_len(values.drop_last());
    }
}

proof fn lemma_occurrences_le_len(values: Seq<Option<Seq<char>>>, v: Seq<char>)
    ensures
        occurrences(values, v) <= values.len(),
    decreases values.len(),
{
    if values.len() > 0 {
        lemma_occurrences_le_len(values.drop_last(), v);
    }
}

proof fn lemma_seq_sum_update(s: Seq<usize>, j: int, x: usize)
    requires
        0 <= j < s.len(),
    ensures
        seq_sum(s.update(j, x)) == seq_sum(s) - s[j] + x,
    decreases s.len(),
{
    if j == s.len() - 1 {
        assert(s.update(j, x).drop_last() =~= s.drop_last());
    } else {
        lemma_seq_sum_update(s.drop_last(), j, x);
        assert(s.update(j, x).drop_last() =~= s.drop_last().update(j, x));
    }
}

proof fn lemma_occurrences_absent(values: Seq<Option<Seq<char>>>, v: Seq<char>)
    requires
        !distinct_values(values).contains(v),
    ensures
        occurrences(values, v) == 0,
    decreases values.len(),
{
    if values.len() > 0 {
        let d = distinct_values(values.drop_last());
        if d.contains(v) {
            let k = choose|k: int| 0 <= k < d.len() && d[k] == v;
            match values.last() {
                Some(w) => {
                    if !d.contains(w) {
                        assert(d.push(w)[k] == v);
                    }
                },
                None => {},
            }
            assert(false);
        }
        lemma_occurrences_absent(values.drop_last(), v);
        match values.last() {
            Some(w) => {
                if w == v {
                    if d.contains(w) {
                    } else {
                        assert(d.push(w)[d.len() as int] == v);
                    }
                }
            },
            None => {},
        }
    }
}

proof fn lemma_distinct_values_no_duplicates(values: Seq<Option<Seq<char>>>)
    ensures
        distinct_values(values).no_duplicates(),
    decreases values.len(),
{
    if values.len() > 0 {
        lemma_distinct_values_no_duplicates(values.drop_last());
    }
}

proof fn lemma_distinct_values_contains(values: Seq<Option<Seq<char>>>, v: Seq<char>)
    ensures
        distinct_values(values).contains(v) == (occurrences(values, v) > 0),
    decreases values.len(),
{
    if values.len() > 0 {
        lemma_distinct_values_contains(values.drop_last(), v);
        let d = distinct_values(values.drop_last());
        match values.last() {
            Some(w) => {
                if !d.contains(w) {
                    if d.push(w).contains(v) && v != w {
                        let k = choose|k: int| 0 <= k < d.push(w).len() && d.push(w)[k] == v;
                        assert(d[k] == v);
                    }
                    if d.contains(v) {
                        let k = choose|k: int| 0 <= k < d.len() && d[k] == v;
                        assert(d.push(w)[k] == v);
                    }
                    if v == w {
                        assert(d.push(w)[d.len() as int] == v);
                    }
                }
            },
            None => {},
        }
    }
}

proof fn lemma_no_duplicates_count<A>(s: Seq<A>, e: A)
    requires
        s.no_duplicates(),
    ensures
        s.to_multiset().count(e) == (if s.contains(e) { 1nat } else { 0nat }),
    decreases s.len(),
{
    broadcast use vstd::seq_lib::group_to_multiset_ensures, vstd::multiset::group_multiset_axioms;
    if s.len() > 0 {
        let t = s.drop_last();
        assert(t.no_duplicates());
        lemma_no_duplicates_count(t, e);
        assert(s =~= t.push(s.last()));
        if t.contains(s.last()) {
            let k = choose|k: int| 0 <= k < t.len() && t[k] == s.last();
            assert(s[k] == s[s.len() - 1]);
        }
        if t.contains(e) {
            let k = choose|k: int| 0 <= k < t.len() && t[k] == e;
            assert(s[k] == e);
        }
        if s.contains(e) && e != s.last() {
            let k = choose|k: int| 0 <= k < s.len() && s[k] == e;
            assert(t[k] == e);
        }
        assert(s.contains(s.last())) by {
            assert(s[s.len() - 1] == s.last());
        }
    } else {
        assert(s.to_multiset() =~= vstd::multiset::Multiset::empty());
    }
}

proof fn lemma_counted_members(values: Seq<Option<Seq<char>>>, e: (Seq<char>, usize))
    ensures
        counted(values, distinct_values(values)).no_duplicates(),
        counted(values, distinct_values(values)).contains(e) == (occurrences(values, e.0) > 0 && e.1 == occurrences(
            values,
            e.0,
        ) as usize),
{
    let d = distinct_values(values);
    let x = counted(values, d);
    lemma_distinct_values_no_duplicates(values);
    lemma_distinct_values_contains(values, e.0);
    assert forall|i: int, j: int| 0 <= i < x.len() && 0 <= j < x.len() && i != j implies x[i] != x[j] by {
        assert(d[i] != d[j]);
    }
    if x.contains(e) {
        let k = choose|k: int| 0 <= k < x.len() && x[k] == e;
        assert(d[k] == e.0);
    }
    if occurrences(values, e.0) > 0 && e.1 == occurrences(values, e.0) as usize {
        let k = choose|k: int| 0 <= k < d.len() && d[k] == e.0;
        assert(x[k] == e);
    }
}

/// The value counts depend only on how often each value occurs, not on the order of the values.
pub proof fn lemma_value_counts_by_occurrences(a: Seq<Option<Seq<char>>>, b: Seq<Option<Seq<char>>>)
    requires
        forall|v: Seq<char>| #[trigger] occurrences(a, v) == occurrences(b, v),
    ensures
        spec_value_counts(a) == spec_value_counts(b),
{
    let x = counted(a, distinct_values(a));
    let y = counted(b, distinct_values(b));
    assert(distinct_values(a).map_values(|v: Seq<char>| (v, occurrences(a, v) as usize)) =~= x);
    assert(distinct_values(b).map_values(|v: Seq<char>| (v, occurrences(b, v) as usize)) =~= y);
    assert forall|e: (Seq<char>, usize)| #[trigger] x.to_multiset().count(e) == y.to_multiset().count(e) by {
        lemma_counted_members(a, e);
        lemma_counted_members(b, e);
        assert(occurrences(a, e.0) == occurrences(b, e.0));
        lemma_no_duplicates_count(x, e);
        lemma_no_duplicates_count(y, e);
    }
    assert(x.to_multiset() =~= y.to_multiset());
    lemma_vc_leq_total();
    x.lemma_sort_by_ensures(vc_leq());
    y.lemma_sort_by_ensures(vc_leq());
    vstd::seq_lib::lemma_sorted_unique(x.sort_by(vc_leq()), y.sort_by(vc_leq()), vc_leq());
}

/// Position of the value count whose value is `v`, if any.
fn find_value(counts: &Vec<ValueCount>, v: &String) -> (r: Option<usize>)
    ensures
        match r {
            Some(j) => j < counts@.len() && counts@[j as int].0@ == v@,
            None => forall|j: int| 0 <= j < counts@.len() ==> counts@[j].0@ != v@,
        },
{
    let mut j: usize = 0;
    while j < counts.len()
        invariant
            j <= counts@.len(),
            forall|k: int| 0 <= k < j ==> counts@[k].0@ != v@,
        decreases counts.len() - j,
    {
        if counts[j].0 == *v {
            return Some(j);
        }
        j = j + 1;
    }
    None
}

/// Each known value with the number of its occurrences, in the order of first occurrence.
pub fn count_values(values: &Vec<Option<String>>) -> (r: Vec<ValueCount>)
    ensures
        vcs_view(r@) == counted(opt_views(values@), distinct_values(opt_views(values@))),
        seq_sum(counts_of(vcs_view(r@))) == known(opt_views(values@)),
{
    let ghost ov = opt_views(values@);
    let mut counts: Vec<ValueCount> = Vec::new();
    let mut i: usize = 0;
    assert(ov.take(0) =~= Seq::<Option<Seq<char>>>::empty());
    assert(vcs_view(counts@) =~= counted(ov.take(0), distinct_values(ov.take(0))));
    assert(counts_of(vcs_view(counts@)) =~= Seq::<usize>::empty());
    while i < values.len()
        invariant
            i <= values@.len(),
            ov == opt_views(values@),
            ov.len() == values@.len(),
            vcs_view(counts@) == counted(ov.take(i as int), distinct_values(ov.take(i as int))),
            seq_sum(counts_of(vcs_view(counts@))) == known(ov.take(i as int)),
        decreases values.len() - i,
    {
        let ghost pre = ov.take(i as int);
        let ghost post = ov.take(i as int + 1);
        let ghost old_counts = vcs_view(counts@);
        proof {
            assert(post.drop_last() =~= pre);
            assert(post.last() == opt_view(values@[i as int]));
            assert forall|w: Seq<char>| #[trigger] occurrences(post, w) == occurrences(pre, w) + (if post.last() == Some(w) { 1int } else { 0int }) by {}
            lemma_known_le_len(pre);
        }
        match &values[i] {
            Some(v) => {
                let found = find_value(&counts, v);
                match found {
                    Some(j) => {
                        proof {
                            lemma_occurrences_le_len(pre, v@);
                            assert(old_counts[j as int] == (v@, occurrences(pre, v@) as usize));
                            assert(distinct_values(pre)[j as int] == v@);
                            assert(distinct_values(pre).contains(v@));
                            assert(distinct_values(post) == distinct_values(pre));
                        }
                        let c = counts[j].1;
                        let ghost oc = counts@;
                        counts[j].1 = c + 1;
                        assert(counts@ =~= oc.update(j as int, (oc[j as int].0, (c + 1) as usize)));
                        proof {
                            lemma_distinct_values_no_duplicates(pre);
                            let dv = distinct_values(post);
                            assert forall|k: int| 0 <= k < dv.len() implies #[trigger] vcs_view(counts@)[k] == counted(post, dv)[k] by {
                                assert(occurrences(post, dv[k]) == occurrences(pre, dv[k]) + (if post.last() == Some(dv[k]) { 1int } else { 0int }));
                                lemma_occurrences_le_len(post, dv[k]);
                                assert(old_counts[k] == vc_view(oc[k]));
                                assert(old_counts[k] == (dv[k], occurrences(pre, dv[k]) as usize));
                                if k != j {
                                    assert(dv[k] != dv[j as int]);
                                    assert(counts@[k] == oc[k]);
                                }
                            }
                            assert(vcs_view(counts@) =~= counted(post, distinct_values(post)));
                            assert(counts_of(vcs_view(counts@)) =~= counts_of(old_counts).update(j as int, (c + 1) as usize));
                            lemma_seq_sum_update(counts_of(old_counts), j as int, (c + 1) as usize);
                        }
                    },
                    None => {
                        proof {
                            assert(!distinct_values(pre).contains(v@)) by {
                                if distinct_values(pre).contains(v@) {
                                    let k = choose|k: int| 0 <= k < distinct_values(pre).len() && distinct_values(pre)[k] == v@;
                                    assert(old_counts[k].0 == v@);
                                }
                            }
                            lemma_occurrences_absent(pre, v@);
                            assert(distinct_values(post) == distinct_values(pre).push(v@));
                        }
                        counts.push((v.clone(), 1));
                        proof {
                            let dv = distinct_values(post);
                            assert forall|k: int| 0 <= k < dv.len() implies #[trigger] vcs_view(counts@)[k] == counted(post, dv)[k] by {
                                assert(occurrences(post, dv[k]) == occurrences(pre, dv[k]) + (if post.last() == Some(dv[k]) { 1int } else { 0int }));
                                lemma_occurrences_le_len(post, dv[k]);
                                if k < dv.len() - 1 {
                                    assert(dv[k] == distinct_values(pre)[k]);
                                    assert(old_counts[k] == (dv[k], occurrences(pre, dv[k]) as usize));
                                    assert(dv[k] != v@);
                                    assert(vcs_view(counts@)[k] == old_counts[k]);
                                } else {
                                    assert(dv[k] == v@);
                                    assert(vcs_view(counts@)[k] == (v@, 1usize));
                                }
                            }
                            assert(vcs_view(counts@) =~= counted(post, distinct_values(post)));
                            assert(counts_of(vcs_view(counts@)) =~= counts_of(old_counts).push(1));
                            assert(counts_of(vcs_view(counts@)).drop_last() =~= counts_of(old_counts));
                        }
                    },
                }
            },
            None => {
                proof {
                    assert(distinct_values(post) == distinct_values(pre));
                    assert(vcs_view(counts@) =~= counted(post, distinct_values(post)));
                }
            },
        }
        i = i + 1;
    }
    assert(ov.take(values@.len() as int) =~= ov);
    counts
}


/// Whether value count `a` comes no later than `b`: a larger count, or an equal count and a value
/// no later in the order of texts.
fn vc_before(a: &ValueCount, b: &ValueCount) -> (r: bool)
    ensures
        r == vc_leq()(vc_view(*a), vc_view(*b)),
{
    a.1 > b.1 || (a.1 == b.1 && str_less_eq(a.0.as_str(), b.0.as_str()))
}

/// Position of the value count that comes first.
fn index_of_first(v: &Vec<ValueCount>) -> (r: usize)
    requires
        v@.len() > 0,
    ensures
        r < v@.len(),
        forall|j: int| 0 <= j < v@.len() ==> #[trigger] vc_leq()(vcs_view(v@)[r as int], vcs_view(v@)[j]),
{
    proof {
        lemma_vc_leq_total();
    }
    let ghost w = vcs_view(v@);
    let mut best: usize = 0;
    let mut i: usize = 1;
    while i < v.len()
        invariant
            1 <= i <= v@.len(),
            best < i,
            w == vcs_view(v@),
            total_ordering(vc_leq()),
            forall|j: int| 0 <= j < i ==> #[trigger] vc_leq()(w[best as int], w[j]),
        decreases v.len() - i,
    {
        if !vc_before(&v[best], &v[i]) {
            proof {
                assert(vc_leq()(w[i as int], w[best as int]));
                assert forall|j: int| 0 <= j < i + 1 implies #[trigger] vc_leq()(w[i as int], w[j]) by {
                    if j < i {
                        assert(vc_leq()(w[best as int], w[j]));
                    }
                }
            }
            best = i;
        }
        i = i + 1;
    }
    best
}

/// The value counts in order: larger counts first, equal counts by value.
pub fn sort_value_counts(v: Vec<ValueCount>) -> (r: Vec<ValueCount>)
    ensures
        vcs_view(r@) == vcs_view(v@).sort_by(vc_leq()),
{
    proof {
        lemma_vc_leq_total();
    }
    let ghost orig = vcs_view(v@);
    let mut rest = v;
    let mut out: Vec<ValueCount> = Vec::new();
    assert(vcs_view(out@) =~= Seq::<(Seq<char>, usize)>::empty());
    while rest.len() > 0
        invariant
            total_ordering(vc_leq()),
            vcs_view(out@).to_multiset().add(vcs_view(rest@).to_multiset()) == orig.to_multiset(),
            sorted_by(vcs_view(out@), vc_leq()),
            forall|i: int, j: int| 0 <= i < out@.len() && 0 <= j < rest@.len() ==> #[trigger] vc_leq()(vcs_view(out@)[i], vcs_view(rest@)[j]),
        decreases rest.len(),
    {
        let m = index_of_first(&rest);
        let ghost before = vcs_view(rest@);
        let ghost out_before = vcs_view(out@);
        let x = rest.remove(m);
        let ghost xv = vc_view(x);
        proof {
            assert(vcs_view(rest@) =~= before.remove(m as int));
            assert(before[m as int] == xv);
            assert(vcs_view(rest@).to_multiset() =~= before.to_multiset().remove(xv));
        }
        out.push(x);
        proof {
            assert(vcs_view(out@) =~= out_before.push(xv));
            assert(out_before.push(xv).to_multiset() =~= out_before.to_multiset().insert(xv));
            assert forall|i: int, j: int| 0 <= i < j < vcs_view(out@).len() implies #[trigger] vc_leq()(vcs_view(out@)[i], vcs_view(out@)[j]) by {
                if j == vcs_view(out@).len() - 1 {
                    assert(vc_leq()(out_before[i], before[m as int]));
                } else {
                    assert(vc_leq()(out_before[i], out_before[j]));
                }
            }
            assert forall|i: int, j: int| 0 <= i < out@.len() && 0 <= j < rest@.len() implies #[trigger] vc_leq()(vcs_view(out@)[i], vcs_view(rest@)[j]) by {
                let jj = if j < m { j } else { j + 1 };
                assert(vcs_view(rest@)[j] == before[jj]);
                if i < out@.len() - 1 {
                    assert(vc_leq()(out_before[i], before[jj]));
                } else {
                    assert(vc_leq()(before[m as int], before[jj]));
                }
            }
        }
    }
    proof {
        assert(vcs_view(rest@).to_multiset() =~= vstd::multiset::Multiset::empty());
        assert(vcs_view(out@).to_multiset() =~= orig.to_multiset());
        orig.lemma_sort_by_ensures(vc_leq());
        vstd::seq_lib::lemma_sorted_unique(vcs_view(out@), orig.sort_by(vc_leq()), vc_leq());
    }
    out
}

/// Each known value with the number of nodes that have it, larger counts first and equal counts
/// by value (see [`spec_value_counts`]).
pub fn value_counts(values: &Vec<Option<String>>) -> (r: Vec<ValueCount>)
    ensures
        vcs_view(r@) == spec_value_counts(opt_views(values@)),
        seq_sum(counts_of(vcs_view(r@))) == known(opt_views(values@)),
        known(opt_views(values@)) <= values@.len(),
{
    let counts = count_values(values);
    let ghost c = vcs_view(counts@);
    let r = sort_value_counts(counts);
    proof {
        lemma_known_le_len(opt_views(values@));
        lemma_vc_leq_total();
        c.lemma_sort_by_ensures(vc_leq());
        assert(c.sort_by(vc_leq()).to_multiset() == c.to_multiset());
        lemma_counts_of_multiset(c.sort_by(vc_leq()), c);
    }
    r
}

proof fn lemma_counts_of_multiset(a: Seq<(Seq<char>, usize)>, b: Seq<(Seq<char>, usize)>)
    requires
        a.to_multiset() == b.to_multiset(),
    ensures
        seq_sum(counts_of(a)) == seq_sum(counts_of(b)),
    decreases a.len(),
{
    if a.len() == 0 {
        assert(b.to_multiset().len() == 0);
        assert(b.len() == 0);
        assert(counts_of(a) =~= counts_of(b));
    } else {
        let x = a.last();
        assert(a.to_multiset().count(x) > 0) by {
            assert(a.contains(x)) by {
                assert(a[a.len() - 1] == x);
            }
        }
        assert(b.contains(x));
        let i = choose|i: int| 0 <= i < b.len() && b[i] == x;
        assert(a.drop_last().to_multiset() =~= a.to_multiset().remove(x)) by {
            assert(a.drop_last() =~= a.remove(a.len() - 1));
        }
        assert(b.remove(i).to_multiset() =~= b.to_multiset().remove(x));
        lemma_counts_of_multiset(a.drop_last(), b.remove(i));
        assert(counts_of(b.remove(i)) =~= counts_of(b).remove(i));
        crate::nakamoto::lemma_seq_sum_remove(counts_of(b), i);
        assert(counts_of(a.drop_last()) =~= counts_of(a).drop_last());
    }
}


proof fn lemma_distinct_values_len(values: Seq<Option<Seq<char>>>)
    ensures
        distinct_values(values).len() <= values.len(),
    decreases values.len(),
{
    if values.len() > 0 {
        lemma_distinct_values_len(values.drop_last());
    }
}

/// There are no more value counts than values.
pub proof fn lemma_value_counts_len(values: Seq<Option<Seq<char>>>)
    ensures
        spec_value_counts(values).len() <= values.len(),
{
    lemma_distinct_values_len(values);
    lemma_vc_leq_total();
    let c = counted(values, distinct_values(values));
    c.lemma_sort_by_ensures(vc_leq());
    assert(c.sort_by(vc_leq()).to_multiset().len() == c.to_multiset().len());
}


/// The order of texts, as a relation.
pub open spec fn str_order() -> spec_fn(Seq<char>, Seq<char>) -> bool {
    |a: Seq<char>, b: Seq<char>| str_le(a, b)
}

/// The order of texts is a total order.
pub proof fn lemma_str_order_total()
    ensures
        total_ordering(str_order()),
{
    assert forall|a: Seq<char>| #[trigger] str_order()(a, a) by {
        lemma_str_le_total(a, a);
    }
    assert forall|a: Seq<char>, b: Seq<char>| #[trigger] str_order()(a, b) && #[trigger] str_order()(b, a) implies a == b by {
        lemma_str_le_antisymmetric(a, b);
    }
    assert forall|a: Seq<char>, b: Seq<char>, c: Seq<char>| #[trigger] str_order()(a, b) && #[trigger] str_order()(b, c) implies str_order()(a, c) by {
        lemma_str_le_transitive(a, b, c);
    }
    assert forall|a: Seq<char>, b: Seq<char>| #[trigger] str_order()(a, b) || #[trigger] str_order()(b, a) by {
        lemma_str_le_total(a, b);
    }
}

} // verus!
