//! What the rewards take from the registry and the stored metrics: the rewardable nodes of each
//! operator and provider, the daily metrics of each node, and the node type of each node with
//! metrics.
use vstd::prelude::*;
use crate::categories::{spec_estimate_node_type, estimate_node_type, types_ascending};
use crate::node_metrics_store::NodeMetricsEntry;
use crate::registry::{dc_pos, find_key, keyed, put_key, DataCenterRecord, NodeOperatorRecord};
use crate::rewards_manager::DailyNodeMetrics;
use crate::subnet::str_eq;
use crate::subnet_metrics::{assoc_pos, assoc_put, lemma_assoc_pos_bounds};

verus! {

/// The nodes an operator is rewarded for: its provider, its region, and how many nodes of each
/// type (in ascending order of type).
#[derive(Debug, Clone, PartialEq, Eq)]
pub struct RewardableNodes {
    pub node_provider_id: String,
    pub region: String,
    pub rewardables: Vec<(String, u32)>,
}

/// What the rewards know of a node: its provider, its region and its node type.
#[derive(Debug, Clone, PartialEq, Eq)]
pub struct NodeMetadata {
    pub node_provider_id: String,
    pub region: String,
    pub node_type: String,
}

/// The view of an operator's rewardable nodes: provider, region, counts by type.
pub type RewardableView = (Seq<char>, Seq<char>, Seq<(String, u32)>);

/// The view of rewardable nodes.
pub open spec fn rewardable_view(r: RewardableNodes) -> RewardableView {
    (r.node_provider_id@, r.region@, r.rewardables@)
}

/// The view of rewardable nodes by operator.
pub open spec fn rewardables_view(v: Seq<(String, RewardableNodes)>) -> Seq<(Seq<char>, RewardableView)> {
    v.map_values(|p: (String, RewardableNodes)| (p.0@, rewardable_view(p.1)))
}

/// The position of the first data center with key `id` (see [`dc_pos`]) is found for each
/// operator record.
pub open spec fn operators_located(ops: Seq<NodeOperatorRecord>, dcs: Seq<DataCenterRecord>) -> bool {
    forall|i: int| 0 <= i < ops.len() ==> dc_pos(dcs, (#[trigger] ops[i]).dc_id@) >= 0
}

/// The rewardable nodes by operator after the operator records `ops`, in order: each record
/// puts its provider, the region of its data center and its counts under its operator.
pub open spec fn operators_rewardables(ops: Seq<NodeOperatorRecord>, dcs: Seq<DataCenterRecord>) -> Seq<(Seq<char>, RewardableView)>
    decreases ops.len(),
{
    if ops.len() == 0 {
        Seq::empty()
    } else {
        let o = ops.last();
        assoc_put(
            operators_rewardables(ops.drop_last(), dcs),
            o.node_operator_principal_id@,
            (o.node_provider_principal_id@, dcs[dc_pos(dcs, o.dc_id@)].region@, o.rewardable_nodes@),
        )
    }
}

fn copy_counts(v: &Vec<(String, u32)>) -> (r: Vec<(String, u32)>)
    ensures
        r@ == v@,
{
    let mut r: Vec<(String, u32)> = Vec::new();
    let mut i: usize = 0;
    while i < v.len()
        invariant
            i <= v@.len(),
            r@ == v@.take(i as int),
        decreases v.len() - i,
    {
        r.push((v[i].0.clone(), v[i].1));
        assert(r@ =~= v@.take(i as int + 1));
        i = i + 1;
    }
    assert(v@.take(v@.len() as int) =~= v@);
    r
}

fn find_dc_of(dcs: &Vec<DataCenterRecord>, id: &str) -> (r: usize)
    requires
        dc_pos(dcs@, id@) >= 0,
    ensures
        r as int == dc_pos(dcs@, id@),
        r < dcs@.len(),
{
    let mut i: usize = 0;
    while i < dcs.len()
        invariant
            i <= dcs@.len(),
            dc_pos(dcs@, id@) >= 0,
            dc_pos(dcs@.take(i as int), id@) == -1,
        decreases dcs.len() - i,
    {
        let ghost t = dcs@.take(i as int + 1);
        assert(t.drop_last() =~= dcs@.take(i as int));
        if str_eq(dcs[i].id.as_str(), id) {
            proof {
                lemma_dc_pos_prefix(dcs@, i as int + 1, id@);
                assert(dcs@.take(i as int + 1) =~= t);
            }
            return i;
        }
        i = i + 1;
    }
    assert(dcs@.take(dcs@.len() as int) =~= dcs@);
    0
}

proof fn lemma_dc_pos_prefix(dcs: Seq<DataCenterRecord>, k: int, id: Seq<char>)
    requires
        0 <= k <= dcs.len(),
        dc_pos(dcs.take(k), id) >= 0,
    ensures
        dc_pos(dcs, id) == dc_pos(dcs.take(k), id),
    decreases dcs.len() - k,
{
    if k < dcs.len() {
        assert(dcs.take(k + 1).drop_last() =~= dcs.take(k));
        lemma_dc_pos_prefix(dcs, k + 1, id);
    } else {
        assert(dcs.take(k) =~= dcs);
    }
}

/// The rewardable nodes of each operator, from the operator records and the data centers (see
/// [`operators_rewardables`]), in the order in which the operators first come up. A record whose
/// data center is unknown is left out by `requires`.
pub fn get_node_operators_rewardables(ops: &Vec<NodeOperatorRecord>, dcs: &Vec<DataCenterRecord>) -> (r: Vec<(String, RewardableNodes)>)
    requires
        operators_located(ops@, dcs@),
    ensures
        rewardables_view(r@) == operators_rewardables(ops@, dcs@),
{
    let mut r: Vec<(String, RewardableNodes)> = Vec::new();
    let mut i: usize = 0;
    assert(ops@.take(0) =~= Seq::<NodeOperatorRecord>::empty());
    assert(rewardables_view(r@) =~= Seq::<(Seq<char>, RewardableView)>::empty());
    while i < ops.len()
        invariant
            i <= ops@.len(),
            operators_located(ops@, dcs@),
            rewardables_view(r@) == operators_rewardables(ops@.take(i as int), dcs@),
        decreases ops.len() - i,
    {
        let ghost t = ops@.take(i as int + 1);
        assert(t.drop_last() =~= ops@.take(i as int));
        assert(t.last() == ops@[i as int]);
        let o = &ops[i];
        let d = find_dc_of(dcs, o.dc_id.as_str());
        let v = RewardableNodes {
            node_provider_id: o.node_provider_principal_id.clone(),
            region: dcs[d].region.clone(),
            rewardables: copy_counts(&o.rewardable_nodes),
        };
        let ghost before = r@;
        proof {
            lemma_assoc_pos_bounds(rewardables_view(r@), o.node_operator_principal_id@);
            crate::registry::lemma_assoc_pos_same_keys(keyed(r@), rewardables_view(r@), o.node_operator_principal_id@);
        }
        let ghost kv = (o.node_operator_principal_id@, rewardable_view(v));
        match find_key(&r, o.node_operator_principal_id.as_str()) {
            Some(j) => {
                r.set(j, (o.node_operator_principal_id.clone(), v));
                assert(rewardables_view(r@) =~= rewardables_view(before).update(j as int, kv));
            },
            None => {
                r.push((o.node_operator_principal_id.clone(), v));
                assert(rewardables_view(r@) =~= rewardables_view(before).push(kv));
            },
        }
        i = i + 1;
    }
    assert(ops@.take(ops@.len() as int) =~= ops@);
    r
}

/// A count key: provider, then (region, node type).
pub type CountKey = (Seq<char>, (Seq<char>, Seq<char>));

/// The counts `c` with operator `o`'s counts by type added under its provider and region, and
/// whether no sum overflowed.
pub open spec fn add_operator(c: Seq<(CountKey, u32)>, o: RewardableView, counts: Seq<(String, u32)>) -> (Seq<(CountKey, u32)>, bool)
    decreases counts.len(),
{
    if counts.len() == 0 {
        (c, true)
    } else {
        let s = add_operator(c, o, counts.drop_last());
        let key = (o.0, (o.1, counts.last().0@));
        let i = assoc_pos(s.0, key);
        let n = counts.last().1;
        if i >= 0 {
            (assoc_put(s.0, key, (s.0[i].1 + n) as u32), s.1 && s.0[i].1 + n <= u32::MAX)
        } else {
            (assoc_put(s.0, key, n), s.1)
        }
    }
}

/// The rewardable nodes of each provider by (region, node type), summed over its operators, and
/// whether no sum overflowed.
pub open spec fn providers_rewardables(ops: Seq<(Seq<char>, RewardableView)>) -> (Seq<(CountKey, u32)>, bool)
    decreases ops.len(),
{
    if ops.len() == 0 {
        (Seq::empty(), true)
    } else {
        let s = providers_rewardables(ops.drop_last());
        let a = add_operator(s.0, ops.last().1, ops.last().1.2);
        (a.0, s.1 && a.1)
    }
}

/// The view of counts by provider, region and node type.
pub open spec fn provider_counts_view(v: Seq<((String, (String, String)), u32)>) -> Seq<(CountKey, u32)> {
    v.map_values(|p: ((String, (String, String)), u32)| ((p.0.0@, (p.0.1.0@, p.0.1.1@)), p.1))
}

fn find_count_key(c: &Vec<((String, (String, String)), u32)>, p: &str, region: &str, t: &str) -> (r: Option<usize>)
    ensures
        match r {
            Some(i) => i < c@.len() && i as int == assoc_pos(provider_counts_view(c@), (p@, (region@, t@))),
            None => assoc_pos(provider_counts_view(c@), (p@, (region@, t@))) == -1,
        },
{
    let mut i: usize = 0;
    assert(provider_counts_view(c@.take(0)) =~= Seq::<(CountKey, u32)>::empty());
    while i < c.len()
        invariant
            i <= c@.len(),
            assoc_pos(provider_counts_view(c@.take(i as int)), (p@, (region@, t@))) == -1,
        decreases c.len() - i,
    {
        let ghost tk = c@.take(i as int + 1);
        assert(provider_counts_view(tk).drop_last() =~= provider_counts_view(c@.take(i as int)));
        if str_eq(c[i].0.0.as_str(), p) && str_eq(c[i].0.1.0.as_str(), region) && str_eq(c[i].0.1.1.as_str(), t) {
            proof {
                crate::subnet_metrics::lemma_assoc_pos_prefix(provider_counts_view(c@), i as int + 1, (p@, (region@, t@)));
                assert(provider_counts_view(c@).take(i as int + 1) =~= provider_counts_view(tk));
            }
            return Some(i);
        }
        i = i + 1;
    }
    assert(c@.take(c@.len() as int) =~= c@);
    None
}

proof fn lemma_add_operator_ok(c: Seq<(CountKey, u32)>, o: RewardableView, counts: Seq<(String, u32)>, j: int)
    requires
        add_operator(c, o, counts).1,
        0 <= j <= counts.len(),
    ensures
        add_operator(c, o, counts.take(j)).1,
    decreases counts.len(),
{
    if j < counts.len() {
        lemma_add_operator_ok(c, o, counts.drop_last(), j);
        assert(counts.drop_last().take(j) =~= counts.take(j));
    } else {
        assert(counts.take(j) =~= counts);
    }
}

proof fn lemma_providers_rewardables_ok(ops: Seq<(Seq<char>, RewardableView)>, k: int)
    requires
        providers_rewardables(ops).1,
        0 <= k <= ops.len(),
    ensures
        providers_rewardables(ops.take(k)).1,
    decreases ops.len(),
{
    if k < ops.len() {
        lemma_providers_rewardables_ok(ops.drop_last(), k);
        assert(ops.drop_last().take(k) =~= ops.take(k));
    } else {
        assert(ops.take(k) =~= ops);
    }
}

/// The rewardable nodes of each node provider by (region, node type), summed over the
/// operators' counts, in the order in which the keys first come up (see
/// [`providers_rewardables`]). A sum that overflows is left out by `requires`.
pub fn get_node_providers_rewardables(node_operators_rewardables: &Vec<(String, RewardableNodes)>) -> (r: Vec<((String, (String, String)), u32)>)
    requires
        providers_rewardables(rewardables_view(node_operators_rewardables@)).1,
    ensures
        provider_counts_view(r@) == providers_rewardables(rewardables_view(node_operators_rewardables@)).0,
{
    let ghost ov = rewardables_view(node_operators_rewardables@);
    let mut r: Vec<((String, (String, String)), u32)> = Vec::new();
    let mut i: usize = 0;
    assert(ov.take(0) =~= Seq::<(Seq<char>, RewardableView)>::empty());
    assert(provider_counts_view(r@) =~= Seq::<(CountKey, u32)>::empty());
    while i < node_operators_rewardables.len()
        invariant
            i <= node_operators_rewardables@.len(),
            ov == rewardables_view(node_operators_rewardables@),
            providers_rewardables(ov).1,
            provider_counts_view(r@) == providers_rewardables(ov.take(i as int)).0,
        decreases node_operators_rewardables.len() - i,
    {
        let ghost t = ov.take(i as int + 1);
        assert(t.drop_last() =~= ov.take(i as int));
        proof {
            lemma_providers_rewardables_ok(ov, i as int + 1);
        }
        let o = &node_operators_rewardables[i].1;
        let ghost c0 = provider_counts_view(r@);
        let ghost ovi = rewardable_view(*o);
        assert(t.last() == (node_operators_rewardables@[i as int].0@, ovi));
        let mut j: usize = 0;
        assert(o.rewardables@.take(0) =~= Seq::<(String, u32)>::empty());
        while j < o.rewardables.len()
            invariant
                j <= o.rewardables@.len(),
                ovi == rewardable_view(*o),
                add_operator(c0, ovi, o.rewardables@).1,
                provider_counts_view(r@) == add_operator(c0, ovi, o.rewardables@.take(j as int)).0,
            decreases o.rewardables.len() - j,
        {
            let ghost tj = o.rewardables@.take(j as int + 1);
            assert(tj.drop_last() =~= o.rewardables@.take(j as int));
            assert(tj.last() == o.rewardables@[j as int]);
            proof {
                lemma_add_operator_ok(c0, ovi, o.rewardables@, j as int + 1);
                lemma_assoc_pos_bounds(provider_counts_view(r@), (o.node_provider_id@, (o.region@, o.rewardables@[j as int].0@)));
            }
            let n = o.rewardables[j].1;
            let key = (o.node_provider_id.clone(), (o.region.clone(), o.rewardables[j].0.clone()));
            let ghost kv = (o.node_provider_id@, (o.region@, o.rewardables@[j as int].0@));
            let ghost before = provider_counts_view(r@);
            match find_count_key(&r, o.node_provider_id.as_str(), o.region.as_str(), o.rewardables[j].0.as_str()) {
                Some(k) => {
                    let sum = r[k].1 + n;
                    r.set(k, (key, sum));
                    assert(provider_counts_view(r@) =~= before.update(k as int, (kv, sum)));
                },
                None => {
                    r.push((key, n));
                    assert(provider_counts_view(r@) =~= before.push((kv, n)));
                },
            }
            j = j + 1;
        }
        assert(o.rewardables@.take(o.rewardables@.len() as int) =~= o.rewardables@);
        i = i + 1;
    }
    assert(ov.take(ov.len() as int) =~= ov);
    r
}

/// The daily metrics of an entry.
pub open spec fn daily_of(e: NodeMetricsEntry) -> DailyNodeMetrics {
    DailyNodeMetrics { ts: e.0.0, subnet_assigned: e.1.subnet_assigned, num_blocks_proposed: e.1.num_blocks_proposed, num_blocks_failed: e.1.num_blocks_failed }
}

/// The daily metrics of the entries grouped by node: each node once, in the order of its first
/// entry, with the daily metrics of its entries in order.
pub open spec fn daily_by_node(s: Seq<NodeMetricsEntry>) -> Seq<(Seq<char>, Seq<DailyNodeMetrics>)>
    decreases s.len(),
{
    if s.len() == 0 {
        Seq::empty()
    } else {
        let g = daily_by_node(s.drop_last());
        let k = s.last().0.1@;
        let i = assoc_pos(g, k);
        if i >= 0 {
            g.update(i, (k, g[i].1.push(daily_of(s.last()))))
        } else {
            g.push((k, seq![daily_of(s.last())]))
        }
    }
}

/// The view of daily metrics by node.
pub open spec fn by_node_view(v: Seq<(String, Vec<DailyNodeMetrics>)>) -> Seq<(Seq<char>, Seq<DailyNodeMetrics>)> {
    v.map_values(|p: (String, Vec<DailyNodeMetrics>)| (p.0@, p.1@))
}

/// The daily metrics of each node from the stored entries (see [`daily_by_node`]).
pub fn get_daily_metrics(entries: &Vec<NodeMetricsEntry>) -> (r: Vec<(String, Vec<DailyNodeMetrics>)>)
    ensures
        by_node_view(r@) == daily_by_node(entries@),
{
    let mut r: Vec<(String, Vec<DailyNodeMetrics>)> = Vec::new();
    let mut i: usize = 0;
    assert(entries@.take(0) =~= Seq::<NodeMetricsEntry>::empty());
    assert(by_node_view(r@) =~= Seq::<(Seq<char>, Seq<DailyNodeMetrics>)>::empty());
    while i < entries.len()
        invariant
            i <= entries@.len(),
            by_node_view(r@) == daily_by_node(entries@.take(i as int)),
        decreases entries.len() - i,
    {
        let ghost t = entries@.take(i as int + 1);
        assert(t.drop_last() =~= entries@.take(i as int));
        assert(t.last() == entries@[i as int]);
        let e = &entries[i];
        let d = DailyNodeMetrics::new(e.0.0, e.1.subnet_assigned.clone(), e.1.num_blocks_proposed, e.1.num_blocks_failed);
        assert(d == daily_of(entries@[i as int]));
        let ghost before = by_node_view(r@);
        proof {
            lemma_assoc_pos_bounds(before, e.0.1@);
            crate::registry::lemma_assoc_pos_same_keys(keyed(r@), before, e.0.1@);
        }
        match find_key(&r, e.0.1.as_str()) {
            Some(j) => {
                let (k, mut v) = r.remove(j);
                let ghost vv = v@;
                v.push(d);
                r.insert(j, (k, v));
                assert(by_node_view(r@) =~= before.update(j as int, (e.0.1@, vv.push(d))));
            },
            None => {
                let mut v: Vec<DailyNodeMetrics> = Vec::new();
                v.push(d);
                r.push((e.0.1.clone(), v));
                assert(by_node_view(r@) =~= before.push((e.0.1@, seq![d])));
            },
        }
        i = i + 1;
    }
    assert(entries@.take(entries@.len() as int) =~= entries@);
    r
}

/// The view of a node's metadata: provider, region, node type.
pub type MetadataView = (Seq<char>, Seq<char>, Seq<char>);

/// Where the node types stand: the rewardable nodes left by operator, and the nodes so far.
pub type PerformanceState = (Seq<(Seq<char>, RewardableView)>, Seq<(Seq<char>, (MetadataView, Seq<DailyNodeMetrics>))>);

/// The operator of node `node` among the (node, operator) pairs.
pub open spec fn operator_of(no: Seq<(String, String)>, node: Seq<char>) -> Seq<char> {
    keyed(no)[assoc_pos(keyed(no), node)].1@
}

/// The state after node `n` with its daily metrics: the node gets the provider and region of its
/// operator and a node type from the operator's counts (see [`spec_estimate_node_type`]), which
/// are used up accordingly.
pub open spec fn performance_step(st: PerformanceState, n: (Seq<char>, Seq<DailyNodeMetrics>), no: Seq<(String, String)>) -> PerformanceState {
    let op = operator_of(no, n.0);
    let oi = assoc_pos(st.0, op);
    let (p, region, counts) = st.0[oi].1;
    let (t, left) = spec_estimate_node_type(counts);
    (st.0.update(oi, (op, (p, region, left))), assoc_put(st.1, n.0, ((p, region, t), n.1)))
}

/// The state after the nodes `ns`, in order.
pub open spec fn performance_steps(st: PerformanceState, ns: Seq<(Seq<char>, Seq<DailyNodeMetrics>)>, no: Seq<(String, String)>) -> PerformanceState
    decreases ns.len(),
{
    if ns.len() == 0 {
        st
    } else {
        performance_step(performance_steps(st, ns.drop_last(), no), ns.last(), no)
    }
}

/// Every node has an operator, and every such operator has rewardable nodes.
pub open spec fn operators_known(ns: Seq<(Seq<char>, Seq<DailyNodeMetrics>)>, no: Seq<(String, String)>, rn: Seq<(Seq<char>, RewardableView)>) -> bool {
    forall|i: int|
        0 <= i < ns.len() ==> assoc_pos(keyed(no), (#[trigger] ns[i]).0) >= 0 && assoc_pos(rn, operator_of(no, ns[i].0)) >= 0
}

/// The view of nodes with their metadata and daily metrics.
pub open spec fn performance_view(v: Seq<(String, (NodeMetadata, Vec<DailyNodeMetrics>))>) -> Seq<(Seq<char>, (MetadataView, Seq<DailyNodeMetrics>))> {
    v.map_values(|p: (String, (NodeMetadata, Vec<DailyNodeMetrics>))| (p.0@, ((p.1.0.node_provider_id@, p.1.0.region@, p.1.0.node_type@), p.1.1@)))
}

proof fn lemma_keys_kept(rn: Seq<(Seq<char>, RewardableView)>, i: int, v: RewardableView, k: Seq<char>)
    requires
        0 <= i < rn.len(),
    ensures
        assoc_pos(rn.update(i, (rn[i].0, v)), k) == assoc_pos(rn, k),
{
    crate::registry::lemma_assoc_pos_same_keys(rn.update(i, (rn[i].0, v)), rn, k);
}

/// Each node with daily metrics, with the provider and region of its operator and a node type
/// taken from the operator's rewardable counts (see [`performance_step`]), in the order in which
/// the nodes first come up; the counts in `rewardable_nodes` are used up accordingly. A node
/// without a known operator with rewardable nodes is left out by `requires`.
pub fn get_assigned_nodes_performance(
    rewardable_nodes: &mut Vec<(String, RewardableNodes)>,
    daily_metrics: Vec<(String, Vec<DailyNodeMetrics>)>,
    node_operators: &Vec<(String, String)>,
) -> (r: Vec<(String, (NodeMetadata, Vec<DailyNodeMetrics>))>)
    requires
        operators_known(by_node_view(daily_metrics@), node_operators@, rewardables_view(old(rewardable_nodes)@)),
        forall|i: int| 0 <= i < old(rewardable_nodes)@.len() ==> types_ascending((#[trigger] old(rewardable_nodes)@[i]).1.rewardables@),
    ensures
        forall|i: int| 0 <= i < final(rewardable_nodes)@.len() ==> types_ascending((#[trigger] final(rewardable_nodes)@[i]).1.rewardables@),
        ({
            let st = performance_steps(
                (rewardables_view(old(rewardable_nodes)@), Seq::empty()),
                by_node_view(daily_metrics@),
                node_operators@,
            );
            rewardables_view(final(rewardable_nodes)@) == st.0 && performance_view(r@) == st.1
        }),
{
    let ghost ns = by_node_view(daily_metrics@);
    let ghost st0: PerformanceState = (rewardables_view(rewardable_nodes@), Seq::empty());
    let ghost rn0 = rewardables_view(rewardable_nodes@);
    let mut r: Vec<(String, (NodeMetadata, Vec<DailyNodeMetrics>))> = Vec::new();
    let mut rest = daily_metrics;
    let ghost mut k: int = 0;
    assert(ns.take(0) =~= Seq::<(Seq<char>, Seq<DailyNodeMetrics>)>::empty());
    assert(performance_view(r@) =~= Seq::<(Seq<char>, (MetadataView, Seq<DailyNodeMetrics>))>::empty());
    assert(by_node_view(rest@) =~= ns.skip(0));
    while rest.len() > 0
        invariant
            0 <= k <= ns.len(),
            by_node_view(rest@) == ns.skip(k),
            operators_known(ns, node_operators@, rn0),
            ({
                let st = performance_steps(st0, ns.take(k), node_operators@);
                rewardables_view(rewardable_nodes@) == st.0 && performance_view(r@) == st.1
            }),
            forall|x: Seq<char>| assoc_pos(rewardables_view(rewardable_nodes@), x) == assoc_pos(rn0, x),
            rewardable_nodes@.len() == rn0.len(),
            forall|i: int| 0 <= i < rewardable_nodes@.len() ==> types_ascending((#[trigger] rewardable_nodes@[i]).1.rewardables@),
        decreases rest.len(),
    {
        assert(by_node_view(rest@).len() == rest@.len());
        assert(k < ns.len());
        let ghost t = ns.take(k + 1);
        assert(t.drop_last() =~= ns.take(k));
        let ghost rest0 = rest@;
        let (node, metrics) = rest.remove(0);
        assert(rest@ =~= rest0.subrange(1, rest0.len() as int));
        assert(by_node_view(rest0)[0] == (node@, metrics@));
        assert(ns.skip(k)[0] == ns[k]);
        assert(ns[k] == (node@, metrics@));
        assert forall|j: int| 0 <= j < rest@.len() implies #[trigger] by_node_view(rest@)[j] == ns.skip(k + 1)[j] by {
            assert(rest@[j] == rest0[j + 1]);
            assert(by_node_view(rest0)[j + 1] == ns.skip(k)[j + 1]);
        }
        assert(by_node_view(rest@) =~= ns.skip(k + 1));
        assert(t.last() == ns[k]);
        let ghost rv = rewardables_view(rewardable_nodes@);
        proof {
            lemma_assoc_pos_bounds(keyed(node_operators@), node@);
        }
        let ni = find_key(node_operators, node.as_str()).unwrap();
        let op = &node_operators[ni].1;
        proof {
            lemma_assoc_pos_bounds(rv, op@);
            crate::registry::lemma_assoc_pos_same_keys(keyed(rewardable_nodes@), rv, op@);
        }
        let oi = find_key(rewardable_nodes, op.as_str()).unwrap();
        let ghost before_rn = rewardable_nodes@;
        let (okey, mut opr) = rewardable_nodes.remove(oi);
        assert(types_ascending(opr.rewardables@)) by {
            assert(before_rn[oi as int].1 == opr);
        }
        let ghost counts0 = opr.rewardables@;
        let node_type = estimate_node_type(Some(&mut opr.rewardables));
        let meta = NodeMetadata { node_provider_id: opr.node_provider_id.clone(), region: opr.region.clone(), node_type };
        let ghost newv = rewardable_view(opr);
        let ghost removed_rn = rewardable_nodes@;
        rewardable_nodes.insert(oi, (okey, opr));
        assert forall|i: int| 0 <= i < rewardable_nodes@.len() implies types_ascending((#[trigger] rewardable_nodes@[i]).1.rewardables@) by {
            if i < oi {
                assert(rewardable_nodes@[i] == before_rn[i]);
            } else if i > oi {
                assert(rewardable_nodes@[i] == before_rn[i]);
            }
        }
        assert(rewardables_view(rewardable_nodes@) =~= rv.update(oi as int, (rv[oi as int].0, newv)));
        proof {
            assert forall|x: Seq<char>| assoc_pos(rewardables_view(rewardable_nodes@), x) == assoc_pos(rn0, x) by {
                lemma_keys_kept(rv, oi as int, newv, x);
            }
        }
        let ghost before = performance_view(r@);
        let ghost mv = ((meta.node_provider_id@, meta.region@, meta.node_type@), metrics@);
        proof {
            lemma_assoc_pos_bounds(before, node@);
            crate::registry::lemma_assoc_pos_same_keys(keyed(r@), before, node@);
        }
        match find_key(&r, node.as_str()) {
            Some(j) => {
                r.set(j, (node, (meta, metrics)));
                assert(performance_view(r@) =~= before.update(j as int, (ns[k].0, mv)));
            },
            None => {
                r.push((node, (meta, metrics)));
                assert(performance_view(r@) =~= before.push((ns[k].0, mv)));
            },
        }
        proof {
            k = k + 1;
        }
    }
    assert(ns.take(k) =~= ns);
    r
}

} // verus!
