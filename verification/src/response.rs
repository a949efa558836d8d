//! The summary of a subnet change: the nodes added and removed, the scores and penalties before
//! and after, what adding or removing each node does to decentralization, and how the values of
//! each feature spread over the nodes before and after.
use vstd::prelude::*;
use crate::change::SubnetChange;
use crate::compare::{lemma_score_difference_congruent, lemma_scores_of_same_nodes, score_difference, ScoreDifference};
use crate::features::{clone_opt, counts_of, opt_view, NodeFeature, NUM_FEATURES};
use crate::nakamoto::seq_sum;
use crate::network::{copy_texts, find_node, lemma_position_bounds, position_of, principals, principals_of};
use crate::rules::texts;
use crate::score::{NakamotoScore, MAX_COEFFICIENT};
use crate::subnet::{copy_nodes, nakamoto_score_of, node_feature_seq, str_eq, HealthStatus, Node};

verus! {

/// The value counts of one feature: each value (or its absence) with the number of nodes that
/// have it before and after the change.
pub type FeatureDiff = Vec<(Option<String>, (usize, usize))>;

/// What a subnet change does: the nodes before, the principals added and removed, the subnet
/// (none for the default principal), the health of nodes, the effect on decentralization of
/// each node added or removed, the scores and penalties before and after, and the spread of
/// each feature's values.
#[derive(Debug, Clone)]
pub struct SubnetChangeResponse {
    pub nodes_old: Vec<Node>,
    pub node_ids_added: Vec<String>,
    pub node_ids_removed: Vec<String>,
    pub subnet_id: Option<String>,
    pub health_of_nodes: Vec<(String, HealthStatus)>,
    pub decentralization_impact: Vec<(String, ScoreDifference)>,
    pub score_before: NakamotoScore,
    pub score_after: NakamotoScore,
    pub penalties_before_change: usize,
    pub penalties_after_change: usize,
    pub motivation: Option<String>,
    pub comment: Option<String>,
    pub run_log: Option<Vec<String>>,
    pub feature_diff: Vec<(NodeFeature, FeatureDiff)>,
    pub proposal_id: Option<u64>,
}

/// The text of the default principal, which stands for "no subnet".
pub open spec fn default_principal() -> Seq<char> {
    "aaaaa-aa"@
}

/// Nodes kept by principal, in order of arrival: `n` takes the place of the node with its
/// principal, or comes last.
pub open spec fn map_put(m: Seq<Node>, n: Node) -> Seq<Node> {
    let i = position_of(m, n.principal@);
    if i >= 0 {
        m.update(i, n)
    } else {
        m.push(n)
    }
}

/// The nodes kept by principal after putting each of `nodes` in turn.
pub open spec fn map_of(nodes: Seq<Node>) -> Seq<Node>
    decreases nodes.len(),
{
    if nodes.len() == 0 {
        Seq::empty()
    } else {
        map_put(map_of(nodes.drop_last()), nodes.last())
    }
}

/// The nodes kept by principal without the one with principal `p`.
pub open spec fn map_del(m: Seq<Node>, p: Seq<char>) -> Seq<Node> {
    let i = position_of(m, p);
    if i >= 0 {
        m.remove(i)
    } else {
        m
    }
}

/// A score of the nodes.
pub open spec fn score_of_nodes(nodes: Seq<Node>) -> NakamotoScore {
    choose|s: NakamotoScore| s.is_score_of(node_feature_seq(nodes))
}

/// How the nodes `after` compare with the nodes `before`.
pub open spec fn impact(after: Seq<Node>, before: Seq<Node>) -> ScoreDifference {
    score_difference(score_of_nodes(after), score_of_nodes(before)).1
}

/// The first position of key `k` among the pairs, or -1.
pub open spec fn key_pos<K, V>(m: Seq<(K, V)>, k: K) -> int
    decreases m.len(),
{
    if m.len() == 0 {
        -1
    } else if key_pos(m.drop_last(), k) >= 0 {
        key_pos(m.drop_last(), k)
    } else if m.last().0 == k {
        m.len() - 1
    } else {
        -1
    }
}

/// The pairs with `v` under key `k`: in place of the pair with that key, or last.
pub open spec fn key_put<V>(m: Seq<(Seq<char>, V)>, k: Seq<char>, v: V) -> Seq<(Seq<char>, V)> {
    let i = key_pos(m, k);
    if i >= 0 {
        m.update(i, (k, v))
    } else {
        m.push((k, v))
    }
}

/// Removing the nodes `removed` one at a time from the nodes `m`: the nodes left, and for each
/// removed principal how the nodes after its removal compare with the nodes before.
pub open spec fn removal_steps(m: Seq<Node>, removed: Seq<Node>) -> (Seq<Node>, Seq<(Seq<char>, ScoreDifference)>)
    decreases removed.len(),
{
    if removed.len() == 0 {
        (m, Seq::empty())
    } else {
        let prev = removal_steps(m, removed.drop_last());
        let p = removed.last().principal@;
        let next = map_del(prev.0, p);
        (next, key_put(prev.1, p, impact(next, prev.0)))
    }
}

/// Then adding the nodes `added` one at a time, each compared in the same way.
pub open spec fn addition_steps(
    start: (Seq<Node>, Seq<(Seq<char>, ScoreDifference)>),
    added: Seq<Node>,
) -> (Seq<Node>, Seq<(Seq<char>, ScoreDifference)>)
    decreases added.len(),
{
    if added.len() == 0 {
        start
    } else {
        let prev = addition_steps(start, added.drop_last());
        let n = added.last();
        let next = map_put(prev.0, n);
        (next, key_put(prev.1, n.principal@, impact(next, prev.0)))
    }
}

/// The effect of each node removed, then each node added, on the nodes `old`.
pub open spec fn impacts(old: Seq<Node>, removed: Seq<Node>, added: Seq<Node>) -> Seq<(Seq<char>, ScoreDifference)> {
    addition_steps(removal_steps(map_of(old), removed), added).1
}

/// The view of pairs of a text and a value.
pub open spec fn keyed_view<V>(v: Seq<(String, V)>) -> Seq<(Seq<char>, V)> {
    v.map_values(|p: (String, V)| (p.0@, p.1))
}

proof fn lemma_map_sizes(m: Seq<Node>, n: Node, p: Seq<char>)
    ensures
        map_put(m, n).len() <= m.len() + 1,
        map_del(m, p).len() <= m.len(),
{
    lemma_position_bounds(m, n.principal@);
    lemma_position_bounds(m, p);
}

proof fn lemma_map_of_len(nodes: Seq<Node>)
    ensures
        map_of(nodes).len() <= nodes.len(),
    decreases nodes.len(),
{
    if nodes.len() > 0 {
        lemma_map_of_len(nodes.drop_last());
        lemma_map_sizes(map_of(nodes.drop_last()), nodes.last(), Seq::empty());
    }
}

fn put_node(m: &mut Vec<Node>, n: &Node)
    ensures
        final(m)@ == map_put(old(m)@, *n),
{
    match find_node(m, n.principal.as_str()) {
        Some(i) => {
            m.set(i, n.copied());
        },
        None => {
            m.push(n.copied());
        },
    }
}

fn del_node(m: &mut Vec<Node>, p: &str)
    ensures
        final(m)@ == map_del(old(m)@, p@),
{
    match find_node(m, p) {
        Some(i) => {
            m.remove(i);
        },
        None => {},
    }
}

fn find_key<V>(m: &Vec<(String, V)>, k: &str) -> (r: Option<usize>)
    ensures
        match r {
            Some(i) => i < m@.len() && i == key_pos(keyed_view(m@), k@),
            None => key_pos(keyed_view(m@), k@) == -1,
        },
{
    let mut i: usize = 0;
    while i < m.len()
        invariant
            i <= m@.len(),
            key_pos(keyed_view(m@.take(i as int)), k@) == -1,
        decreases m.len() - i,
    {
        let ghost t = m@.take(i as int + 1);
        assert(keyed_view(t).drop_last() =~= keyed_view(m@.take(i as int)));
        if str_eq(m[i].0.as_str(), k) {
            proof {
                lemma_key_pos_prefix(keyed_view(m@), i as int + 1, k@);
                assert(keyed_view(m@).take(i as int + 1) =~= keyed_view(t));
            }
            return Some(i);
        }
        i = i + 1;
    }
    assert(m@.take(m@.len() as int) =~= m@);
    None
}

proof fn lemma_key_pos_prefix<K, V>(m: Seq<(K, V)>, k: int, p: K)
    requires
        0 <= k <= m.len(),
        key_pos(m.take(k), p) >= 0,
    ensures
        key_pos(m, p) == key_pos(m.take(k), p),
    decreases m.len() - k,
{
    if k < m.len() {
        assert(m.take(k + 1).drop_last() =~= m.take(k));
        lemma_key_pos_prefix(m, k + 1, p);
    } else {
        assert(m.take(k) =~= m);
    }
}

fn put_impact(m: &mut Vec<(String, ScoreDifference)>, k: &String, v: ScoreDifference)
    ensures
        keyed_view(final(m)@) == key_put(keyed_view(old(m)@), k@, v),
{
    let ghost before = m@;
    match find_key(m, k.as_str()) {
        Some(i) => {
            m.set(i, (k.clone(), v));
            assert(keyed_view(m@) =~= keyed_view(before).update(i as int, (k@, v)));
        },
        None => {
            m.push((k.clone(), v));
            assert(keyed_view(m@) =~= keyed_view(before).push((k@, v)));
        },
    }
}

/// How the nodes `after` compare with the nodes `before` (see [`impact`]).
fn impact_of(after: &Vec<Node>, before: &Vec<Node>) -> (r: ScoreDifference)
    requires
        after@.len() <= MAX_COEFFICIENT,
        before@.len() <= MAX_COEFFICIENT,
    ensures
        r == impact(after@, before@),
{
    let a = nakamoto_score_of(after);
    let b = nakamoto_score_of(before);
    proof {
        let sa = score_of_nodes(after@);
        let sb = score_of_nodes(before@);
        assert(sa.is_score_of(node_feature_seq(after@)));
        assert(sb.is_score_of(node_feature_seq(before@)));
        lemma_scores_of_same_nodes(a, sa, node_feature_seq(after@));
        lemma_scores_of_same_nodes(b, sb, node_feature_seq(before@));
        lemma_score_difference_congruent(a, sa, b, sb);
    }
    a.difference_from(&b)
}

/// Counts of a feature's values: `v` counted once more before (`after` false) or after the
/// change, in the place of its entry, or in a new last entry.
pub open spec fn count_put(d: Seq<(Option<Seq<char>>, (int, int))>, v: Option<Seq<char>>, after: bool) -> Seq<
    (Option<Seq<char>>, (int, int)),
> {
    let i = key_pos(d, v);
    let c = if i >= 0 { d[i].1 } else { (0int, 0int) };
    let c2 = if after { (c.0, c.1 + 1) } else { (c.0 + 1, c.1) };
    if i >= 0 {
        d.update(i, (v, c2))
    } else {
        d.push((v, c2))
    }
}

/// The counts `d` with the value of feature `f` of each of `nodes` counted in turn.
pub open spec fn counted_over(d: Seq<(Option<Seq<char>>, (int, int))>, nodes: Seq<Node>, f: NodeFeature, after: bool) -> Seq<
    (Option<Seq<char>>, (int, int)),
>
    decreases nodes.len(),
{
    if nodes.len() == 0 {
        d
    } else {
        count_put(counted_over(d, nodes.drop_last(), f, after), nodes.last().features.spec_get(f), after)
    }
}

/// Each value of feature `f` among the nodes before and after (in order of first appearance,
/// before then after), with the number of nodes that have it before and after.
pub open spec fn feature_diff_of(old: Seq<Node>, new: Seq<Node>, f: NodeFeature) -> Seq<(Option<Seq<char>>, (int, int))> {
    counted_over(counted_over(Seq::empty(), old, f, false), new, f, true)
}

/// The view of value counts.
pub open spec fn diff_view(d: Seq<(Option<String>, (usize, usize))>) -> Seq<(Option<Seq<char>>, (int, int))> {
    d.map_values(|p: (Option<String>, (usize, usize))| (opt_view(p.0), (p.1.0 as int, p.1.1 as int)))
}

fn opt_eq(a: &Option<String>, b: &Option<String>) -> (r: bool)
    ensures
        r == (opt_view(*a) == opt_view(*b)),
{
    match (a, b) {
        (Some(x), Some(y)) => str_eq(x.as_str(), y.as_str()),
        (None, None) => true,
        _ => false,
    }
}

fn find_value(d: &FeatureDiff, v: &Option<String>) -> (r: Option<usize>)
    ensures
        match r {
            Some(i) => i < d@.len() && i == key_pos(diff_view(d@), opt_view(*v)),
            None => key_pos(diff_view(d@), opt_view(*v)) == -1,
        },
{
    let mut i: usize = 0;
    while i < d.len()
        invariant
            i <= d@.len(),
            key_pos(diff_view(d@.take(i as int)), opt_view(*v)) == -1,
        decreases d.len() - i,
    {
        let ghost t = d@.take(i as int + 1);
        assert(diff_view(t).drop_last() =~= diff_view(d@.take(i as int)));
        if opt_eq(&d[i].0, v) {
            proof {
                lemma_key_pos_prefix(diff_view(d@), i as int + 1, opt_view(*v));
                assert(diff_view(d@).take(i as int + 1) =~= diff_view(t));
            }
            return Some(i);
        }
        i = i + 1;
    }
    assert(d@.take(d@.len() as int) =~= d@);
    None
}

/// Every count of `d` is at most `b`.
pub open spec fn counts_at_most(d: Seq<(Option<String>, (usize, usize))>, b: int) -> bool {
    forall|j: int| 0 <= j < d.len() ==> (#[trigger] d[j]).1.0 <= b && d[j].1.1 <= b
}

fn count_values_into(d: &mut FeatureDiff, nodes: &Vec<Node>, f: &NodeFeature, after: bool, Ghost(b): Ghost<int>)
    requires
        counts_at_most(old(d)@, b),
        0 <= b,
        b + nodes@.len() <= usize::MAX,
    ensures
        diff_view(final(d)@) == counted_over(diff_view(old(d)@), nodes@, *f, after),
        counts_at_most(final(d)@, b + nodes@.len()),
{
    let ghost d0 = d@;
    let mut i: usize = 0;
    while i < nodes.len()
        invariant
            i <= nodes@.len(),
            diff_view(d@) == counted_over(diff_view(d0), nodes@.take(i as int), *f, after),
            counts_at_most(d@, b + i),
            0 <= b,
            b + nodes@.len() <= usize::MAX,
        decreases nodes.len() - i,
    {
        let ghost t = nodes@.take(i as int + 1);
        assert(t.drop_last() =~= nodes@.take(i as int));
        let ghost before = d@;
        let v = nodes[i].get_feature(f);
        match find_value(d, &v) {
            Some(k) => {
                let c = d[k].1;
                assert(before[k as int].1.0 <= b + i && before[k as int].1.1 <= b + i);
                let c2 = if after { (c.0, c.1 + 1) } else { (c.0 + 1, c.1) };
                d.set(k, (v, c2));
                assert(diff_view(d@) =~= diff_view(before).update(k as int, (opt_view(v), (c2.0 as int, c2.1 as int))));
                assert forall|j: int| 0 <= j < d@.len() implies (#[trigger] d@[j]).1.0 <= b + i + 1 && d@[j].1.1 <= b + i + 1 by {
                    if j != k {
                        assert(d@[j] == before[j]);
                    }
                }
            },
            None => {
                let c2: (usize, usize) = if after { (0, 1) } else { (1, 0) };
                d.push((v, c2));
                assert(diff_view(d@) =~= diff_view(before).push((opt_view(v), (c2.0 as int, c2.1 as int))));
                assert forall|j: int| 0 <= j < d@.len() implies (#[trigger] d@[j]).1.0 <= b + i + 1 && d@[j].1.1 <= b + i + 1 by {
                    if j < before.len() {
                        assert(d@[j] == before[j]);
                    }
                }
            },
        }
        i = i + 1;
    }
    assert(nodes@.take(nodes@.len() as int) =~= nodes@);
}

/// The value counts of feature `f` before and after (see [`feature_diff_of`]).
fn value_counts_before_after(old: &Vec<Node>, new: &Vec<Node>, f: &NodeFeature) -> (r: FeatureDiff)
    requires
        old@.len() + new@.len() <= usize::MAX,
    ensures
        diff_view(r@) == feature_diff_of(old@, new@, *f),
{
    let mut d: FeatureDiff = Vec::new();
    assert(diff_view(d@) =~= Seq::<(Option<Seq<char>>, (int, int))>::empty());
    count_values_into(&mut d, old, f, false, Ghost(0));
    count_values_into(&mut d, new, f, true, Ghost(old@.len() as int));
    d
}

fn copy_healths(v: &Vec<(String, HealthStatus)>) -> (r: Vec<(String, HealthStatus)>)
    ensures
        r@ == v@,
{
    let mut r: Vec<(String, HealthStatus)> = Vec::new();
    let mut i: usize = 0;
    while i < v.len()
        invariant
            i <= v@.len(),
            r@ == v@.take(i as int),
        decreases v.len() - i,
    {
        r.push((v[i].0.clone(), v[i].1));
        assert(r@ =~= v@.take(i as int + 1));
        i = i + 1;
    }
    assert(v@.take(v@.len() as int) =~= v@);
    r
}

/// The nodes kept by principal after putting each of `nodes` in turn (see [`map_of`]).
fn nodes_by_principal(nodes: &Vec<Node>) -> (r: Vec<Node>)
    ensures
        r@ == map_of(nodes@),
{
    let mut m: Vec<Node> = Vec::new();
    let mut i: usize = 0;
    while i < nodes.len()
        invariant
            i <= nodes@.len(),
            m@ == map_of(nodes@.take(i as int)),
        decreases nodes.len() - i,
    {
        let ghost t = nodes@.take(i as int + 1);
        assert(t.drop_last() =~= nodes@.take(i as int));
        put_node(&mut m, &nodes[i]);
        i = i + 1;
    }
    assert(nodes@.take(nodes@.len() as int) =~= nodes@);
    m
}

/// The effect on decentralization of each node removed, then each node added (see [`impacts`]).
fn impacts_of(old: &Vec<Node>, removed: &Vec<Node>, added: &Vec<Node>) -> (r: Vec<(String, ScoreDifference)>)
    requires
        old@.len() + added@.len() <= MAX_COEFFICIENT,
    ensures
        keyed_view(r@) == impacts(old@, removed@, added@),
{
    let mut m = nodes_by_principal(old);
    proof {
        lemma_map_of_len(old@);
    }
    let mut r: Vec<(String, ScoreDifference)> = Vec::new();
    assert(keyed_view(r@) =~= Seq::<(Seq<char>, ScoreDifference)>::empty());
    let mut i: usize = 0;
    while i < removed.len()
        invariant
            i <= removed@.len(),
            (m@, keyed_view(r@)) == removal_steps(map_of(old@), removed@.take(i as int)),
            m@.len() <= old@.len(),
            old@.len() + added@.len() <= MAX_COEFFICIENT,
        decreases removed.len() - i,
    {
        let ghost t = removed@.take(i as int + 1);
        assert(t.drop_last() =~= removed@.take(i as int));
        let before = copy_nodes(&m);
        proof {
            lemma_map_sizes(m@, removed@[i as int], removed@[i as int].principal@);
        }
        del_node(&mut m, removed[i].principal.as_str());
        let d = impact_of(&m, &before);
        put_impact(&mut r, &removed[i].principal, d);
        i = i + 1;
    }
    assert(removed@.take(removed@.len() as int) =~= removed@);
    let ghost start = removal_steps(map_of(old@), removed@);
    let mut j: usize = 0;
    assert(added@.take(0) =~= Seq::<Node>::empty());
    while j < added.len()
        invariant
            j <= added@.len(),
            (m@, keyed_view(r@)) == addition_steps(start, added@.take(j as int)),
            m@.len() <= old@.len() + j,
            old@.len() + added@.len() <= MAX_COEFFICIENT,
        decreases added.len() - j,
    {
        let ghost t = added@.take(j as int + 1);
        assert(t.drop_last() =~= added@.take(j as int));
        let before = copy_nodes(&m);
        proof {
            lemma_map_sizes(m@, added@[j as int], Seq::empty());
        }
        put_node(&mut m, &added[j]);
        let d = impact_of(&m, &before);
        put_impact(&mut r, &added[j].principal, d);
        j = j + 1;
    }
    assert(added@.take(added@.len() as int) =~= added@);
    r
}

/// Removing the nodes `removed` one at a time from the nodes `m`: the nodes left, and each
/// removed node with how the nodes after its removal compare with the nodes before.
pub open spec fn removal_descriptions(m: Seq<Node>, removed: Seq<Node>) -> (Seq<Node>, Seq<(Node, ScoreDifference)>)
    decreases removed.len(),
{
    if removed.len() == 0 {
        (m, Seq::empty())
    } else {
        let prev = removal_descriptions(m, removed.drop_last());
        let next = map_del(prev.0, removed.last().principal@);
        (next, prev.1.push((removed.last(), impact(next, prev.0))))
    }
}

/// Adding the nodes `added` one at a time to the nodes `m`: the nodes then, and each added node
/// with how the nodes after its addition compare with the nodes before.
pub open spec fn addition_descriptions(m: Seq<Node>, added: Seq<Node>) -> (Seq<Node>, Seq<(Node, ScoreDifference)>)
    decreases added.len(),
{
    if added.len() == 0 {
        (m, Seq::empty())
    } else {
        let prev = addition_descriptions(m, added.drop_last());
        let next = map_put(prev.0, added.last());
        (next, prev.1.push((added.last(), impact(next, prev.0))))
    }
}

/// For each node of `remove_nodes` in turn, how the subnet's nodes (by principal) compare after
/// its removal with before (see [`removal_descriptions`]).
pub fn generate_removed_nodes_description(subnet_nodes: &Vec<Node>, remove_nodes: &Vec<Node>) -> (r: Vec<(Node, ScoreDifference)>)
    requires
        subnet_nodes@.len() <= MAX_COEFFICIENT,
    ensures
        r@ == removal_descriptions(map_of(subnet_nodes@), remove_nodes@).1,
{
    let mut m = nodes_by_principal(subnet_nodes);
    proof {
        lemma_map_of_len(subnet_nodes@);
    }
    let mut r: Vec<(Node, ScoreDifference)> = Vec::new();
    let mut i: usize = 0;
    assert(remove_nodes@.take(0) =~= Seq::<Node>::empty());
    while i < remove_nodes.len()
        invariant
            i <= remove_nodes@.len(),
            (m@, r@) == removal_descriptions(map_of(subnet_nodes@), remove_nodes@.take(i as int)),
            m@.len() <= subnet_nodes@.len(),
            subnet_nodes@.len() <= MAX_COEFFICIENT,
        decreases remove_nodes.len() - i,
    {
        let ghost t = remove_nodes@.take(i as int + 1);
        assert(t.drop_last() =~= remove_nodes@.take(i as int));
        let before = copy_nodes(&m);
        proof {
            lemma_map_sizes(m@, remove_nodes@[i as int], remove_nodes@[i as int].principal@);
        }
        del_node(&mut m, remove_nodes[i].principal.as_str());
        let d = impact_of(&m, &before);
        r.push((remove_nodes[i].copied(), d));
        i = i + 1;
    }
    assert(remove_nodes@.take(remove_nodes@.len() as int) =~= remove_nodes@);
    r
}

/// For each node of `add_nodes` in turn, how the subnet's nodes (by principal) compare after
/// its addition with before (see [`addition_descriptions`]).
pub fn generate_added_node_description(subnet_nodes: &Vec<Node>, add_nodes: &Vec<Node>) -> (r: Vec<(Node, ScoreDifference)>)
    requires
        subnet_nodes@.len() + add_nodes@.len() <= MAX_COEFFICIENT,
    ensures
        r@ == addition_descriptions(map_of(subnet_nodes@), add_nodes@).1,
{
    let mut m = nodes_by_principal(subnet_nodes);
    proof {
        lemma_map_of_len(subnet_nodes@);
    }
    let mut r: Vec<(Node, ScoreDifference)> = Vec::new();
    let mut j: usize = 0;
    assert(add_nodes@.take(0) =~= Seq::<Node>::empty());
    while j < add_nodes.len()
        invariant
            j <= add_nodes@.len(),
            (m@, r@) == addition_descriptions(map_of(subnet_nodes@), add_nodes@.take(j as int)),
            m@.len() <= subnet_nodes@.len() + j,
            subnet_nodes@.len() + add_nodes@.len() <= MAX_COEFFICIENT,
        decreases add_nodes.len() - j,
    {
        let ghost t = add_nodes@.take(j as int + 1);
        assert(t.drop_last() =~= add_nodes@.take(j as int));
        let before = copy_nodes(&m);
        proof {
            lemma_map_sizes(m@, add_nodes@[j as int], Seq::empty());
        }
        put_node(&mut m, &add_nodes[j]);
        let d = impact_of(&m, &before);
        r.push((add_nodes[j].copied(), d));
        j = j + 1;
    }
    assert(add_nodes@.take(add_nodes@.len() as int) =~= add_nodes@);
    r
}

/// The score of the nodes, whose coefficients are then at most [`MAX_COEFFICIENT`].
fn bounded_score(nodes: &Vec<Node>) -> (r: NakamotoScore)
    requires
        nodes@.len() <= MAX_COEFFICIENT,
    ensures
        r.is_score_of(node_feature_seq(nodes@)),
        r.wf(),
        r.bounded(),
{
    let r = nakamoto_score_of(nodes);
    assert forall|i: int| 0 <= i < NUM_FEATURES implies #[trigger] r.coef(i) <= MAX_COEFFICIENT by {
        assert(r.controlled(i) <= seq_sum(counts_of(r.counts(i))));
        assert(r.coef(i) <= nodes@.len());
    }
    r
}

/// Whether `r` summarizes `change` with the health of nodes `node_health` (as
/// [`SubnetChangeResponse::new`] does, whatever the reason given).
pub open spec fn response_of(r: SubnetChangeResponse, change: SubnetChange, node_health: Seq<(String, HealthStatus)>) -> bool {
    &&& r.nodes_old@ == change.old_nodes@
    &&& texts(r.node_ids_added@) == principals(change.added_nodes@)
    &&& texts(r.node_ids_removed@) == principals(change.removed_nodes@)
    &&& opt_view(r.subnet_id) == if change.subnet_id@ == default_principal() {
        None
    } else {
        Some(change.subnet_id@)
    }
    &&& r.health_of_nodes@ == node_health
    &&& keyed_view(r.decentralization_impact@) == impacts(change.old_nodes@, change.removed_nodes@, change.added_nodes@)
    &&& r.score_before.is_score_of(node_feature_seq(change.old_nodes@))
    &&& r.score_after.is_score_of(node_feature_seq(change.new_nodes@))
    &&& r.score_before.wf() && r.score_before.bounded()
    &&& r.score_after.wf() && r.score_after.bounded()
    &&& r.penalties_before_change == change.penalties_before_change.0
    &&& r.penalties_after_change == change.penalties_after_change.0
    &&& r.comment == change.comment
    &&& r.run_log matches Some(l) && texts(l@) == texts(change.run_log@)
    &&& r.feature_diff@.len() == NUM_FEATURES
    &&& forall|i: int|
        0 <= i < NUM_FEATURES ==> (#[trigger] r.feature_diff@[i]).0 == NodeFeature::spec_at(i) && diff_view(
            r.feature_diff@[i].1@,
        ) == feature_diff_of(change.old_nodes@, change.new_nodes@, NodeFeature::spec_at(i))
    &&& r.proposal_id is None
}

impl SubnetChangeResponse {
    /// The summary of `change`, with the health of nodes `node_health` and the reason
    /// `motivation`.
    pub fn new(change: &SubnetChange, node_health: &Vec<(String, HealthStatus)>, motivation: Option<String>) -> (r: Self)
        requires
            change.old_nodes@.len() + change.added_nodes@.len() <= MAX_COEFFICIENT,
            change.new_nodes@.len() <= MAX_COEFFICIENT,
        ensures
            r.nodes_old@ == change.old_nodes@,
            texts(r.node_ids_added@) == principals(change.added_nodes@),
            texts(r.node_ids_removed@) == principals(change.removed_nodes@),
            opt_view(r.subnet_id) == if change.subnet_id@ == default_principal() {
                None
            } else {
                Some(change.subnet_id@)
            },
            r.health_of_nodes@ == node_health@,
            keyed_view(r.decentralization_impact@) == impacts(change.old_nodes@, change.removed_nodes@, change.added_nodes@),
            r.score_before.is_score_of(node_feature_seq(change.old_nodes@)),
            r.score_after.is_score_of(node_feature_seq(change.new_nodes@)),
            r.score_before.wf() && r.score_before.bounded(),
            r.score_after.wf() && r.score_after.bounded(),
            r.penalties_before_change == change.penalties_before_change.0,
            r.penalties_after_change == change.penalties_after_change.0,
            r.motivation == motivation,
            r.comment == change.comment,
            r.run_log matches Some(l) && texts(l@) == texts(change.run_log@),
            r.feature_diff@.len() == NUM_FEATURES,
            forall|i: int|
                0 <= i < NUM_FEATURES ==> (#[trigger] r.feature_diff@[i]).0 == NodeFeature::spec_at(i) && diff_view(
                    r.feature_diff@[i].1@,
                ) == feature_diff_of(change.old_nodes@, change.new_nodes@, NodeFeature::spec_at(i)),
            r.proposal_id is None,
    {
        let decentralization_impact = impacts_of(&change.old_nodes, &change.removed_nodes, &change.added_nodes);
        let default_id = "aaaaa-aa";
        proof {
            reveal_strlit("aaaaa-aa");
        }
        let subnet_id = if str_eq(change.subnet_id.as_str(), default_id) {
            None
        } else {
            Some(change.subnet_id.clone())
        };
        let variants = NodeFeature::variants();
        assert forall|i: int| 0 <= i < NUM_FEATURES implies #[trigger] variants@[i] == NodeFeature::spec_at(i) by {
            assert(variants@[i].spec_index() == i);
        }
        let mut feature_diff: Vec<(NodeFeature, FeatureDiff)> = Vec::new();
        let mut k: usize = 0;
        while k < variants.len()
            invariant
                k <= variants@.len(),
                variants@.len() == NUM_FEATURES,
                forall|i: int| 0 <= i < NUM_FEATURES ==> #[trigger] variants@[i] == NodeFeature::spec_at(i),
                feature_diff@.len() == k,
                change.old_nodes@.len() + change.new_nodes@.len() <= usize::MAX,
                forall|i: int|
                    0 <= i < k ==> (#[trigger] feature_diff@[i]).0 == NodeFeature::spec_at(i) && diff_view(
                        feature_diff@[i].1@,
                    ) == feature_diff_of(change.old_nodes@, change.new_nodes@, NodeFeature::spec_at(i)),
            decreases variants.len() - k,
        {
            let d = value_counts_before_after(&change.old_nodes, &change.new_nodes, &variants[k]);
            feature_diff.push((variants[k], d));
            k = k + 1;
        }
        let score_before = bounded_score(&change.old_nodes);
        let score_after = bounded_score(&change.new_nodes);
        SubnetChangeResponse {
            nodes_old: copy_nodes(&change.old_nodes),
            node_ids_added: principals_of(&change.added_nodes),
            node_ids_removed: principals_of(&change.removed_nodes),
            subnet_id,
            health_of_nodes: copy_healths(node_health),
            decentralization_impact,
            score_before,
            score_after,
            penalties_before_change: change.penalties_before_change.0,
            penalties_after_change: change.penalties_after_change.0,
            motivation,
            comment: clone_opt(&change.comment),
            run_log: Some(copy_texts(&change.run_log)),
            feature_diff,
            proposal_id: None,
        }
    }

    /// The summary with the reason `motivation`.
    pub fn with_motivation(self, motivation: String) -> (r: Self)
        ensures
            r == (SubnetChangeResponse { motivation: Some(motivation), ..self }),
    {
        SubnetChangeResponse { motivation: Some(motivation), ..self }
    }
}

} // verus!
