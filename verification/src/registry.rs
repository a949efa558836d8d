//! The nodes that the registry holds over a range of versions, and which of them are rewarded,
//! with which node type.
use vstd::prelude::*;
use crate::categories::{first_nonzero, lemma_first_nonzero_bounds};
use crate::reward_period::{aligned_in_range, spec_day_end, DayEndNanos, DayUTC, TimestampNanos};
use crate::subnet::str_eq;
use crate::subnet_metrics::{assoc_del, assoc_pos, assoc_put, lemma_assoc_pos_bounds, lemma_assoc_pos_prefix};

verus! {

/// What the rewards read of a node's registry record: its node operator and, where the node has
/// an HTTP endpoint, the IPv6 address of it.
#[derive(Debug, Clone, PartialEq, Eq)]
pub struct NodeRecord {
    pub node_operator_id: String,
    pub ip_addr: Option<String>,
}

impl NodeRecord {
    /// A copy of the record.
    pub fn copied(&self) -> (r: Self)
        ensures
            r == *self,
    {
        NodeRecord { node_operator_id: self.node_operator_id.clone(), ip_addr: crate::features::clone_opt(&self.ip_addr) }
    }
}

/// One version of a node's registry entry: the node, the registry version, and the record
/// (`None`: the node was removed at that version).
#[derive(Debug, Clone, PartialEq, Eq)]
pub struct NodeRegistryEntry {
    pub node_id: String,
    pub version: u64,
    pub record: Option<NodeRecord>,
}

/// A range of registry versions.
#[derive(Debug, Clone, Copy, PartialEq, Eq)]
pub struct RegistryVersionBounds {
    pub start_bound: u64,
    pub end_bound: u64,
}

/// Pairs keyed by the view of their text key.
pub open spec fn keyed<V>(m: Seq<(String, V)>) -> Seq<(Seq<char>, V)> {
    m.map_values(|p: (String, V)| (p.0@, p.1))
}

/// Where key `k` is among the pairs.
pub fn find_key<V>(m: &Vec<(String, V)>, k: &str) -> (r: Option<usize>)
    ensures
        match r {
            Some(i) => i < m@.len() && i as int == assoc_pos(keyed(m@), k@),
            None => assoc_pos(keyed(m@), k@) == -1,
        },
{
    let mut i: usize = 0;
    assert(keyed(m@.take(0)) =~= Seq::<(Seq<char>, V)>::empty());
    while i < m.len()
        invariant
            i <= m@.len(),
            assoc_pos(keyed(m@.take(i as int)), k@) == -1,
        decreases m.len() - i,
    {
        let ghost t = m@.take(i as int + 1);
        assert(keyed(t).drop_last() =~= keyed(m@.take(i as int)));
        if str_eq(m[i].0.as_str(), k) {
            proof {
                lemma_assoc_pos_prefix(keyed(m@), i as int + 1, k@);
                assert(keyed(m@).take(i as int + 1) =~= keyed(t));
            }
            return Some(i);
        }
        i = i + 1;
    }
    assert(m@.take(m@.len() as int) =~= m@);
    None
}

/// Puts `v` under key `k`: in place of the pair with that key, or last.
pub fn put_key<V>(m: &mut Vec<(String, V)>, k: String, v: V)
    ensures
        keyed(final(m)@) == assoc_put(keyed(old(m)@), k@, v),
{
    proof {
        lemma_assoc_pos_bounds(keyed(m@), k@);
    }
    match find_key(m, k.as_str()) {
        Some(i) => {
            let ghost kk = k@;
            m.set(i, (k, v));
            assert(keyed(m@) =~= keyed(old(m)@).update(i as int, (kk, v)));
        },
        None => {
            let ghost kk = k@;
            m.push((k, v));
            assert(keyed(m@) =~= keyed(old(m)@).push((kk, v)));
        },
    }
}

/// Removes the pair with key `k`, if there is one.
pub fn del_key<V>(m: &mut Vec<(String, V)>, k: &str)
    ensures
        keyed(final(m)@) == assoc_del(keyed(old(m)@), k@),
{
    proof {
        lemma_assoc_pos_bounds(keyed(m@), k@);
    }
    match find_key(m, k) {
        Some(i) => {
            m.remove(i);
            assert(keyed(m@) =~= keyed(old(m)@).remove(i as int));
        },
        None => {},
    }
}


/// Where a node stands over a range of versions: valid from, valid to, registered at, and its
/// latest record.
pub type RangeEntry = (u64, u64, u64, NodeRecord);

/// The nodes after entry `e`, by node id. An entry after the range is skipped. An entry at or
/// before the start of the range registers the node for the whole range, or removes it. In the
/// range, a node already there takes the new record, or on removal ends its validity at that
/// version; a node not there yet is registered from that version to the end.
pub open spec fn range_step(m: Seq<(Seq<char>, RangeEntry)>, e: NodeRegistryEntry, b: RegistryVersionBounds) -> Seq<(Seq<char>, RangeEntry)> {
    let id = e.node_id@;
    let i = assoc_pos(m, id);
    if e.version > b.end_bound {
        m
    } else if e.version <= b.start_bound {
        match e.record {
            Some(r) => assoc_put(m, id, (b.start_bound, b.end_bound, if i >= 0 { m[i].1.2 } else { e.version }, r)),
            None => assoc_del(m, id),
        }
    } else if i >= 0 {
        let c = m[i].1;
        match e.record {
            Some(r) => assoc_put(m, id, (c.0, c.1, c.2, r)),
            None => assoc_put(m, id, (c.0, e.version, c.2, c.3)),
        }
    } else {
        match e.record {
            Some(r) => assoc_put(m, id, (e.version, b.end_bound, e.version, r)),
            None => m,
        }
    }
}

/// The nodes after the entries `es`, in order.
pub open spec fn range_steps(es: Seq<NodeRegistryEntry>, b: RegistryVersionBounds) -> Seq<(Seq<char>, RangeEntry)>
    decreases es.len(),
{
    if es.len() == 0 {
        Seq::empty()
    } else {
        range_step(range_steps(es.drop_last(), b), es.last(), b)
    }
}

/// The nodes ordered by the version at which they were registered, keeping the order of those
/// registered at the same version (a stable insertion sort).
pub open spec fn by_registration(s: Seq<(Seq<char>, RangeEntry)>) -> Seq<(Seq<char>, RangeEntry)>
    decreases s.len(),
{
    if s.len() == 0 {
        Seq::empty()
    } else {
        let o = by_registration(s.drop_last());
        o.insert(registration_pos(o, s.last().1.2, o.len() as int), s.last())
    }
}

/// Where a node registered at `v` goes among `o`, looking backwards from `pos`: after the last
/// node registered no later.
pub open spec fn registration_pos(o: Seq<(Seq<char>, RangeEntry)>, v: u64, pos: int) -> int
    decreases pos,
{
    if pos <= 0 {
        0
    } else if o[pos - 1].1.2 > v {
        registration_pos(o, v, pos - 1)
    } else {
        pos
    }
}

/// The nodes that the entries `es` hold over the range `b`, earliest registered first, each with
/// its latest record and the versions over which it was valid.
pub open spec fn spec_nodes_in_range(es: Seq<NodeRegistryEntry>, b: RegistryVersionBounds) -> Seq<(Seq<char>, (NodeRecord, RegistryVersionBounds))> {
    by_registration(range_steps(es, b)).map_values(
        |p: (Seq<char>, RangeEntry)| (p.0, (p.1.3, RegistryVersionBounds { start_bound: p.1.0, end_bound: p.1.1 })),
    )
}

proof fn lemma_registration_pos_bounds(o: Seq<(Seq<char>, RangeEntry)>, v: u64, pos: int)
    requires
        0 <= pos <= o.len(),
    ensures
        0 <= registration_pos(o, v, pos) <= pos,
    decreases pos,
{
    if pos > 0 {
        lemma_registration_pos_bounds(o, v, pos - 1);
    }
}

proof fn lemma_by_registration_len(s: Seq<(Seq<char>, RangeEntry)>)
    ensures
        by_registration(s).len() == s.len(),
    decreases s.len(),
{
    if s.len() > 0 {
        lemma_by_registration_len(s.drop_last());
        let o = by_registration(s.drop_last());
        lemma_registration_pos_bounds(o, s.last().1.2, o.len() as int);
    }
}

fn sort_by_registration(m: Vec<(String, RangeEntry)>) -> (r: Vec<(String, RangeEntry)>)
    ensures
        keyed(r@) == by_registration(keyed(m@)),
{
    let ghost orig = m@;
    let mut rest = m;
    let mut out: Vec<(String, RangeEntry)> = Vec::new();
    let ghost mut i: int = 0;
    assert(orig.skip(0) =~= orig);
    assert(keyed(orig.take(0)) =~= Seq::<(Seq<char>, RangeEntry)>::empty());
    assert(keyed(out@) =~= Seq::<(Seq<char>, RangeEntry)>::empty());
    while rest.len() > 0
        invariant
            0 <= i <= orig.len(),
            rest@ == orig.skip(i),
            keyed(out@) == by_registration(keyed(orig.take(i))),
            out@.len() == i,
        decreases rest.len(),
    {
        let ghost t = keyed(orig.take(i + 1));
        assert(t.drop_last() =~= keyed(orig.take(i)));
        assert(t.last() == (orig[i].0@, orig[i].1));
        let x = rest.remove(0);
        assert(x == orig[i]);
        assert(rest@ =~= orig.skip(i + 1));
        let mut pos = out.len();
        while pos > 0 && out[pos - 1].1.2 > x.1.2
            invariant
                pos <= out@.len(),
                registration_pos(keyed(out@), x.1.2, out@.len() as int) == registration_pos(keyed(out@), x.1.2, pos as int),
            decreases pos,
        {
            pos = pos - 1;
        }
        proof {
            lemma_registration_pos_bounds(keyed(out@), x.1.2, out@.len() as int);
            lemma_by_registration_len(t);
        }
        let ghost before = keyed(out@);
        let ghost xv = (x.0@, x.1);
        out.insert(pos, x);
        assert(keyed(out@) =~= before.insert(pos as int, xv));
        proof {
            i = i + 1;
        }
    }
    assert(orig.take(i) =~= orig);
    out
}

fn range_entry_at(m: &Vec<(String, RangeEntry)>, j: usize) -> (r: RangeEntry)
    requires
        j < m@.len(),
    ensures
        r == m@[j as int].1,
{
    let e = &m[j].1;
    (e.0, e.1, e.2, e.3.copied())
}

/// The nodes that the registry held over the versions `bounds`, from the entries of the node
/// records (by node, then by version ascending): each node with its latest record and the
/// versions over which it was valid (see [`range_step`]), earliest registered first. Nodes
/// removed at or before the start of the range are left out.
pub fn nodes_in_range(entries: &Vec<NodeRegistryEntry>, bounds: RegistryVersionBounds) -> (r: Vec<(String, (NodeRecord, RegistryVersionBounds))>)
    ensures
        keyed(r@) == spec_nodes_in_range(entries@, bounds),
{
    let start = bounds.start_bound;
    let end = bounds.end_bound;
    let mut m: Vec<(String, RangeEntry)> = Vec::new();
    let mut i: usize = 0;
    assert(entries@.take(0) =~= Seq::<NodeRegistryEntry>::empty());
    assert(keyed(m@) =~= Seq::<(Seq<char>, RangeEntry)>::empty());
    while i < entries.len()
        invariant
            i <= entries@.len(),
            start == bounds.start_bound,
            end == bounds.end_bound,
            keyed(m@) == range_steps(entries@.take(i as int), bounds),
        decreases entries.len() - i,
    {
        let ghost t = entries@.take(i as int + 1);
        assert(t.drop_last() =~= entries@.take(i as int));
        assert(t.last() == entries@[i as int]);
        let e = &entries[i];
        let ghost m0 = keyed(m@);
        proof {
            lemma_assoc_pos_bounds(m0, e.node_id@);
        }
        if e.version <= end {
            let found = find_key(&m, e.node_id.as_str());
            if e.version <= start {
                match &e.record {
                    Some(rec) => {
                        let reg = match found {
                            Some(j) => m[j].1.2,
                            None => e.version,
                        };
                        put_key(&mut m, e.node_id.clone(), (start, end, reg, rec.copied()));
                    },
                    None => {
                        del_key(&mut m, e.node_id.as_str());
                    },
                }
            } else {
                match found {
                    Some(j) => {
                        let c = range_entry_at(&m, j);
                        match &e.record {
                            Some(rec) => {
                                put_key(&mut m, e.node_id.clone(), (c.0, c.1, c.2, rec.copied()));
                            },
                            None => {
                                put_key(&mut m, e.node_id.clone(), (c.0, e.version, c.2, c.3));
                            },
                        }
                    },
                    None => {
                        match &e.record {
                            Some(rec) => {
                                put_key(&mut m, e.node_id.clone(), (e.version, end, e.version, rec.copied()));
                            },
                            None => {},
                        }
                    },
                }
            }
        }
        i = i + 1;
    }
    assert(entries@.take(entries@.len() as int) =~= entries@);
    let sorted = sort_by_registration(m);
    proof {
        lemma_by_registration_len(range_steps(entries@, bounds));
    }
    let mut r: Vec<(String, (NodeRecord, RegistryVersionBounds))> = Vec::new();
    let mut k: usize = 0;
    while k < sorted.len()
        invariant
            k <= sorted@.len(),
            keyed(sorted@) == by_registration(range_steps(entries@, bounds)),
            keyed(r@) == spec_nodes_in_range(entries@, bounds).take(k as int),
        decreases sorted.len() - k,
    {
        let p = &sorted[k];
        let ghost before = keyed(r@);
        r.push((p.0.clone(), (p.1.3.copied(), RegistryVersionBounds { start_bound: p.1.0, end_bound: p.1.1 })));
        assert(keyed(r@) =~= spec_nodes_in_range(entries@, bounds).take(k as int + 1)) by {
            assert(keyed(sorted@)[k as int] == (p.0@, p.1));
            assert(keyed(r@) =~= before.push((p.0@, (p.1.3, RegistryVersionBounds { start_bound: p.1.0, end_bound: p.1.1 }))));
        }
        k = k + 1;
    }
    assert(spec_nodes_in_range(entries@, bounds).take(sorted@.len() as int) =~= spec_nodes_in_range(entries@, bounds));
    r
}

/// What the rewards read of a node operator's registry record: its principal, its node
/// provider, its data center, and how many nodes of each type it is rewarded for (in ascending
/// order of type, as the registry keeps them).
#[derive(Debug, Clone, PartialEq, Eq)]
pub struct NodeOperatorRecord {
    pub node_operator_principal_id: String,
    pub node_provider_principal_id: String,
    pub dc_id: String,
    pub rewardable_nodes: Vec<(String, u32)>,
}

/// What the rewards read of a data center's registry record.
#[derive(Debug, Clone, PartialEq, Eq)]
pub struct DataCenterRecord {
    pub id: String,
    pub region: String,
}

/// A node that is rewarded, with the node type it is rewarded as.
#[derive(Debug, Clone, PartialEq, Eq)]
pub struct RewardableNode {
    pub node_id: String,
    pub node_type: String,
    pub dc_id: String,
    pub region: String,
    pub rewardable_from: DayUTC,
    pub rewardable_to: DayUTC,
}

/// The rewardable nodes of a node provider: how many nodes of each (region, node type) its
/// operators are rewarded for, and the nodes themselves.
#[derive(Debug, Clone, PartialEq, Eq)]
pub struct ProviderRewardableNodes {
    pub provider_id: String,
    pub rewardable_nodes_count: Vec<((String, String), u32)>,
    pub rewardable_nodes: Vec<RewardableNode>,
}

/// The position of the last operator record with principal `op`, or -1.
pub open spec fn last_operator(ops: Seq<NodeOperatorRecord>, op: Seq<char>) -> int
    decreases ops.len(),
{
    if ops.len() == 0 {
        -1
    } else if ops.last().node_operator_principal_id@ == op {
        ops.len() - 1
    } else {
        last_operator(ops.drop_last(), op)
    }
}

/// The position of the first data center with id `id`, or -1.
pub open spec fn dc_pos(dcs: Seq<DataCenterRecord>, id: Seq<char>) -> int
    decreases dcs.len(),
{
    if dcs.len() == 0 {
        -1
    } else if dc_pos(dcs.drop_last(), id) >= 0 {
        dc_pos(dcs.drop_last(), id)
    } else if dcs.last().id@ == id {
        dcs.len() - 1
    } else {
        -1
    }
}

/// Every operator (by its last record) is in a known data center.
pub open spec fn data_centers_known(ops: Seq<NodeOperatorRecord>, dcs: Seq<DataCenterRecord>) -> bool {
    forall|i: int|
        0 <= i < ops.len() && #[trigger] last_operator(ops, ops[i].node_operator_principal_id@) == i ==> dc_pos(dcs, ops[i].dc_id@) >= 0
}

/// Counts by (region, node type).
pub type CountsView = Seq<((Seq<char>, Seq<char>), u32)>;

/// The counts `c` with the operator's counts `counts` added under region `region`, and whether
/// no sum overflowed.
pub open spec fn add_counts(c: CountsView, region: Seq<char>, counts: Seq<(String, u32)>) -> (CountsView, bool)
    decreases counts.len(),
{
    if counts.len() == 0 {
        (c, true)
    } else {
        let s = add_counts(c, region, counts.drop_last());
        let key = (region, counts.last().0@);
        let i = assoc_pos(s.0, key);
        let n = counts.last().1;
        if i >= 0 {
            (assoc_put(s.0, key, (s.0[i].1 + n) as u32), s.1 && s.0[i].1 + n <= u32::MAX)
        } else {
            (assoc_put(s.0, key, n), s.1)
        }
    }
}

/// What an operator has left to assign: its counts by node type, and the node types given to
/// nodes by IPv6 address, with the version from which each holds.
pub type OperatorView = (Seq<(String, u32)>, Seq<(Seq<char>, (Seq<char>, u64))>);

/// The position of the first assignment that holds from after `end`, or the length.
pub open spec fn later_assignment(a: Seq<(Seq<char>, (Seq<char>, u64))>, end: u64, from: int) -> int
    decreases a.len() - from,
{
    if from >= a.len() {
        a.len() as int
    } else if a[from].1.1 > end {
        from
    } else {
        later_assignment(a, end, from + 1)
    }
}

/// The node type of a node with address `ip` valid over `vb`, and what the operator has left:
/// a node at an address that already has a type keeps it (from the node's start); else the
/// first type with a count left is used up by one; when the counts are all used up, they are
/// dropped and the type of a node that holds from after this one ends is taken over, if there
/// is one. An operator without counts gives no type.
pub open spec fn node_type_of(ip: Seq<char>, vb: RegistryVersionBounds, o: OperatorView) -> (Option<Seq<char>>, OperatorView) {
    let (counts, assigned) = o;
    let ai = assoc_pos(assigned, ip);
    if ai >= 0 {
        (Some(assigned[ai].1.0), (counts, assoc_put(assigned, ip, (assigned[ai].1.0, vb.start_bound))))
    } else if counts.len() == 0 {
        (None, o)
    } else {
        let k = first_nonzero(counts, 0);
        if k < counts.len() {
            let (t, c) = counts[k];
            let rest = counts.skip(k + 1);
            (Some(t@), (if c > 1 { seq![(t, (c - 1) as u32)] + rest } else { rest }, assigned))
        } else {
            let j = later_assignment(assigned, vb.end_bound, 0);
            if j < assigned.len() {
                let t = assigned[j].1.0;
                (Some(t), (Seq::empty(), assoc_put(assigned, ip, (t, vb.start_bound))))
            } else {
                (None, (Seq::empty(), assigned))
            }
        }
    }
}

/// A rewardable node: node, node type, data center, region, first and last day.
pub type NodeView = (Seq<char>, Seq<char>, Seq<char>, Seq<char>, DayUTC, DayUTC);

/// A provider's rewardable nodes so far: provider, counts by (region, type), nodes.
pub type ProviderView = (Seq<char>, CountsView, Seq<NodeView>);

/// Where the computation stands after some nodes: the providers so far, the operators so far,
/// and whether nothing went wrong (a node without an address, a count that overflowed).
pub struct RewardablesState {
    pub providers: Seq<(Seq<char>, ProviderView)>,
    pub operators: Seq<(Seq<char>, OperatorView)>,
    pub ok: bool,
}

/// The state after node `n`. A node whose operator is unknown is skipped. Else its provider and
/// operator are entered, the operator's counts being added to the provider's the first time;
/// the node gets a node type by [`node_type_of`], and with one it joins the provider's nodes,
/// rewardable from `from` to `to`.
pub open spec fn rewardable_step(
    st: RewardablesState,
    n: (Seq<char>, (NodeRecord, RegistryVersionBounds)),
    ops: Seq<NodeOperatorRecord>,
    dcs: Seq<DataCenterRecord>,
    from: DayUTC,
    to: DayUTC,
) -> RewardablesState {
    let rec = n.1.0;
    let op = rec.node_operator_id@;
    let oi = last_operator(ops, op);
    if oi < 0 {
        st
    } else {
        let o = ops[oi];
        let region = dcs[dc_pos(dcs, o.dc_id@)].region@;
        let p = o.node_provider_principal_id@;
        let pi = assoc_pos(st.providers, p);
        let prov0: ProviderView = if pi >= 0 { st.providers[pi].1 } else { (p, Seq::empty(), Seq::empty()) };
        let si = assoc_pos(st.operators, op);
        let added = add_counts(prov0.1, region, o.rewardable_nodes@);
        let prov1: ProviderView = if si >= 0 { prov0 } else { (prov0.0, added.0, prov0.2) };
        let os0: OperatorView = if si >= 0 { st.operators[si].1 } else { (o.rewardable_nodes@, Seq::empty()) };
        match rec.ip_addr {
            None => RewardablesState { providers: st.providers, operators: st.operators, ok: false },
            Some(ip) => {
                let (t, os1) = node_type_of(ip@, n.1.1, os0);
                let prov2: ProviderView = match t {
                    Some(ty) => (prov1.0, prov1.1, prov1.2.push((n.0, ty, o.dc_id@, region, from, to))),
                    None => prov1,
                };
                RewardablesState {
                    providers: assoc_put(st.providers, p, prov2),
                    operators: assoc_put(st.operators, op, os1),
                    ok: st.ok && (si >= 0 || added.1),
                }
            },
        }
    }
}

/// The state after the nodes `ns`, taken from the last to the first.
pub open spec fn rewardable_steps(
    ns: Seq<(Seq<char>, (NodeRecord, RegistryVersionBounds))>,
    ops: Seq<NodeOperatorRecord>,
    dcs: Seq<DataCenterRecord>,
    from: DayUTC,
    to: DayUTC,
) -> RewardablesState
    decreases ns.len(),
{
    if ns.len() == 0 {
        RewardablesState { providers: Seq::empty(), operators: Seq::empty(), ok: true }
    } else {
        rewardable_step(rewardable_steps(ns.skip(1), ops, dcs, from, to), ns[0], ops, dcs, from, to)
    }
}

/// Two pair sequences with the same keys place a key at the same position.
pub proof fn lemma_assoc_pos_same_keys<K, V1, V2>(m1: Seq<(K, V1)>, m2: Seq<(K, V2)>, k: K)
    requires
        m1.len() == m2.len(),
        forall|i: int| 0 <= i < m1.len() ==> #[trigger] m1[i].0 == m2[i].0,
    ensures
        assoc_pos(m1, k) == assoc_pos(m2, k),
    decreases m1.len(),
{
    if m1.len() > 0 {
        lemma_assoc_pos_same_keys(m1.drop_last(), m2.drop_last(), k);
    }
}

/// The view of counts by (region, node type).
pub open spec fn counts_view(c: Seq<((String, String), u32)>) -> CountsView {
    c.map_values(|p: ((String, String), u32)| ((p.0.0@, p.0.1@), p.1))
}

/// The view of node types by address.
pub open spec fn assigned_view(a: Seq<(String, (String, u64))>) -> Seq<(Seq<char>, (Seq<char>, u64))> {
    a.map_values(|p: (String, (String, u64))| (p.0@, (p.1.0@, p.1.1)))
}

/// The view of a rewardable node.
pub open spec fn node_view(n: RewardableNode) -> NodeView {
    (n.node_id@, n.node_type@, n.dc_id@, n.region@, n.rewardable_from, n.rewardable_to)
}

/// The view of a provider's rewardable nodes.
pub open spec fn provider_view(p: ProviderRewardableNodes) -> ProviderView {
    (p.provider_id@, counts_view(p.rewardable_nodes_count@), p.rewardable_nodes@.map_values(|n: RewardableNode| node_view(n)))
}

/// The view of the providers' rewardable nodes, by provider.
pub open spec fn providers_view(v: Seq<(String, ProviderRewardableNodes)>) -> Seq<(Seq<char>, ProviderView)> {
    v.map_values(|p: (String, ProviderRewardableNodes)| (p.0@, provider_view(p.1)))
}

/// What an operator has left, as held while computing.
pub type OperatorState = (Vec<(String, u32)>, Vec<(String, (String, u64))>);

/// The view of what the operators have left, by operator.
pub open spec fn operators_view(v: Seq<(String, OperatorState)>) -> Seq<(Seq<char>, OperatorView)> {
    v.map_values(|p: (String, OperatorState)| (p.0@, (p.1.0@, assigned_view(p.1.1@))))
}

fn find_operator(ops: &Vec<NodeOperatorRecord>, op: &str) -> (r: Option<usize>)
    ensures
        match r {
            Some(i) => i < ops@.len() && i as int == last_operator(ops@, op@),
            None => last_operator(ops@, op@) == -1,
        },
{
    let mut i: usize = ops.len();
    assert(ops@.take(ops@.len() as int) =~= ops@);
    while i > 0
        invariant
            i <= ops@.len(),
            last_operator(ops@, op@) == last_operator(ops@.take(i as int), op@),
        decreases i,
    {
        let ghost t = ops@.take(i as int);
        assert(t.drop_last() =~= ops@.take(i as int - 1));
        if str_eq(ops[i - 1].node_operator_principal_id.as_str(), op) {
            return Some(i - 1);
        }
        i = i - 1;
    }
    None
}

fn find_dc(dcs: &Vec<DataCenterRecord>, id: &str) -> (r: Option<usize>)
    ensures
        match r {
            Some(i) => i < dcs@.len() && i as int == dc_pos(dcs@, id@),
            None => dc_pos(dcs@, id@) == -1,
        },
{
    let mut i: usize = 0;
    assert(dcs@.take(0) =~= Seq::<DataCenterRecord>::empty());
    while i < dcs.len()
        invariant
            i <= dcs@.len(),
            dc_pos(dcs@.take(i as int), id@) == -1,
        decreases dcs.len() - i,
    {
        let ghost t = dcs@.take(i as int + 1);
        assert(t.drop_last() =~= dcs@.take(i as int));
        if str_eq(dcs[i].id.as_str(), id) {
            proof {
                lemma_dc_pos_prefix(dcs@, i as int + 1, id@);
                assert(dcs@.take(i as int + 1) =~= t);
            }
            return Some(i);
        }
        i = i + 1;
    }
    assert(dcs@.take(dcs@.len() as int) =~= dcs@);
    None
}

proof fn lemma_dc_pos_prefix(dcs: Seq<DataCenterRecord>, k: int, id: Seq<char>)
    requires
        0 <= k <= dcs.len(),
        dc_pos(dcs.take(k), id) >= 0,
    ensures
        dc_pos(dcs, id) == dc_pos(dcs.take(k), id),
    decreases dcs.len() - k,
{
    if k < dcs.len() {
        assert(dcs.take(k + 1).drop_last() =~= dcs.take(k));
        lemma_dc_pos_prefix(dcs, k + 1, id);
    } else {
        assert(dcs.take(k) =~= dcs);
    }
}

proof fn lemma_dc_pos_bounds(dcs: Seq<DataCenterRecord>, id: Seq<char>)
    ensures
        -1 <= dc_pos(dcs, id) < dcs.len(),
    decreases dcs.len(),
{
    if dcs.len() > 0 {
        lemma_dc_pos_bounds(dcs.drop_last(), id);
    }
}

proof fn lemma_last_operator_bounds(ops: Seq<NodeOperatorRecord>, op: Seq<char>)
    ensures
        -1 <= last_operator(ops, op) < ops.len(),
        last_operator(ops, op) >= 0 ==> ops[last_operator(ops, op)].node_operator_principal_id@ == op,
    decreases ops.len(),
{
    if ops.len() > 0 {
        lemma_last_operator_bounds(ops.drop_last(), op);
    }
}

fn copy_counts(v: &Vec<(String, u32)>) -> (r: Vec<(String, u32)>)
    ensures
        r@ == v@,
{
    let mut r: Vec<(String, u32)> = Vec::new();
    let mut i: usize = 0;
    while i < v.len()
        invariant
            i <= v@.len(),
            r@ == v@.take(i as int),
        decreases v.len() - i,
    {
        r.push((v[i].0.clone(), v[i].1));
        assert(r@ =~= v@.take(i as int + 1));
        i = i + 1;
    }
    assert(v@.take(v@.len() as int) =~= v@);
    r
}

fn find_count(c: &Vec<((String, String), u32)>, region: &str, node_type: &str) -> (r: Option<usize>)
    ensures
        match r {
            Some(i) => i < c@.len() && i as int == assoc_pos(counts_view(c@), (region@, node_type@)),
            None => assoc_pos(counts_view(c@), (region@, node_type@)) == -1,
        },
{
    let mut i: usize = 0;
    assert(counts_view(c@.take(0)) =~= Seq::<((Seq<char>, Seq<char>), u32)>::empty());
    while i < c.len()
        invariant
            i <= c@.len(),
            assoc_pos(counts_view(c@.take(i as int)), (region@, node_type@)) == -1,
        decreases c.len() - i,
    {
        let ghost t = c@.take(i as int + 1);
        assert(counts_view(t).drop_last() =~= counts_view(c@.take(i as int)));
        if str_eq(c[i].0.0.as_str(), region) && str_eq(c[i].0.1.as_str(), node_type) {
            proof {
                lemma_assoc_pos_prefix(counts_view(c@), i as int + 1, (region@, node_type@));
                assert(counts_view(c@).take(i as int + 1) =~= counts_view(t));
            }
            return Some(i);
        }
        i = i + 1;
    }
    assert(c@.take(c@.len() as int) =~= c@);
    None
}

proof fn lemma_add_counts_ok(c: CountsView, region: Seq<char>, counts: Seq<(String, u32)>, j: int)
    requires
        add_counts(c, region, counts).1,
        0 <= j <= counts.len(),
    ensures
        add_counts(c, region, counts.take(j)).1,
    decreases counts.len(),
{
    if j < counts.len() {
        lemma_add_counts_ok(c, region, counts.drop_last(), j);
        assert(counts.drop_last().take(j) =~= counts.take(j));
    } else {
        assert(counts.take(j) =~= counts);
    }
}

fn add_operator_counts(c: &mut Vec<((String, String), u32)>, region: &String, counts: &Vec<(String, u32)>)
    requires
        add_counts(counts_view(old(c)@), region@, counts@).1,
    ensures
        counts_view(final(c)@) == add_counts(counts_view(old(c)@), region@, counts@).0,
{
    let ghost c0 = counts_view(c@);
    let mut j: usize = 0;
    assert(counts@.take(0) =~= Seq::<(String, u32)>::empty());
    while j < counts.len()
        invariant
            j <= counts@.len(),
            add_counts(c0, region@, counts@).1,
            counts_view(c@) == add_counts(c0, region@, counts@.take(j as int)).0,
        decreases counts.len() - j,
    {
        let ghost t = counts@.take(j as int + 1);
        assert(t.drop_last() =~= counts@.take(j as int));
        assert(t.last() == counts@[j as int]);
        proof {
            lemma_add_counts_ok(c0, region@, counts@, j as int + 1);
            lemma_assoc_pos_bounds(counts_view(c@), (region@, counts@[j as int].0@));
        }
        let n = counts[j].1;
        match find_count(c, region.as_str(), counts[j].0.as_str()) {
            Some(i) => {
                let sum = c[i].1 + n;
                let ghost before = counts_view(c@);
                c.set(i, ((region.clone(), counts[j].0.clone()), sum));
                assert(counts_view(c@) =~= before.update(i as int, ((region@, counts@[j as int].0@), sum)));
            },
            None => {
                let ghost before = counts_view(c@);
                c.push(((region.clone(), counts[j].0.clone()), n));
                assert(counts_view(c@) =~= before.push(((region@, counts@[j as int].0@), n)));
            },
        }
        j = j + 1;
    }
    assert(counts@.take(counts@.len() as int) =~= counts@);
}

fn put_assigned(a: &mut Vec<(String, (String, u64))>, k: String, t: String, from: u64)
    ensures
        assigned_view(final(a)@) == assoc_put(assigned_view(old(a)@), k@, (t@, from)),
{
    proof {
        lemma_assoc_pos_same_keys(keyed(a@), assigned_view(a@), k@);
        lemma_assoc_pos_bounds(assigned_view(a@), k@);
    }
    let ghost before = assigned_view(a@);
    let ghost kv = (k@, (t@, from));
    match find_key(a, k.as_str()) {
        Some(i) => {
            a.set(i, (k, (t, from)));
            assert(assigned_view(a@) =~= before.update(i as int, kv));
        },
        None => {
            a.push((k, (t, from)));
            assert(assigned_view(a@) =~= before.push(kv));
        },
    }
}

/// The view of an optional text.
pub open spec fn opt_view(o: Option<String>) -> Option<Seq<char>> {
    match o {
        Some(s) => Some(s@),
        None => None,
    }
}

/// The node type of a node with address `ip` valid over `vb`, from what its operator has left
/// (see [`node_type_of`]).
fn assign_type(ip: &String, vb: RegistryVersionBounds, counts: &mut Vec<(String, u32)>, assigned: &mut Vec<(String, (String, u64))>) -> (r: Option<String>)
    ensures
        (opt_view(r), (final(counts)@, assigned_view(final(assigned)@))) == node_type_of(ip@, vb, (old(counts)@, assigned_view(old(assigned)@))),
{
    proof {
        lemma_assoc_pos_same_keys(keyed(assigned@), assigned_view(assigned@), ip@);
        lemma_assoc_pos_bounds(assigned_view(assigned@), ip@);
    }
    match find_key(assigned, ip.as_str()) {
        Some(ai) => {
            let t = assigned[ai].1.0.clone();
            put_assigned(assigned, ip.clone(), t.clone(), vb.start_bound);
            return Some(t);
        },
        None => {},
    }
    if counts.len() == 0 {
        return None;
    }
    let ghost start = counts@;
    let ghost mut i: int = 0;
    proof {
        lemma_first_nonzero_bounds(start, 0);
        assert(start.skip(0) =~= start);
    }
    while counts.len() > 0
        invariant
            start == old(counts)@,
            start.len() > 0,
            assigned@ == old(assigned)@,
            assoc_pos(assigned_view(assigned@), ip@) == -1,
            0 <= i <= start.len(),
            counts@ == start.skip(i),
            first_nonzero(start, 0) == first_nonzero(start, i),
        decreases counts.len(),
    {
        let (t, c) = counts.remove(0);
        proof {
            assert(start[i] == (t, c));
            assert(start.skip(i + 1) =~= start.skip(i).subrange(1, start.skip(i).len() as int));
        }
        if c != 0 {
            assert(first_nonzero(start, i) == i);
            if c - 1 != 0 {
                counts.insert(0, (t.clone(), c - 1));
                proof {
                    assert(counts@ =~= seq![(t, (c - 1) as u32)] + start.skip(i + 1));
                }
            }
            let ghost spec = node_type_of(ip@, vb, (start, assigned_view(assigned@)));
            assert(spec.1.0 =~= counts@);
            return Some(t);
        }
        proof {
            i = i + 1;
        }
    }
    proof {
        lemma_first_nonzero_bounds(start, i);
        assert(counts@ =~= Seq::<(String, u32)>::empty());
    }
    let mut j: usize = 0;
    while j < assigned.len() && assigned[j].1.1 <= vb.end_bound
        invariant
            j <= assigned@.len(),
            later_assignment(assigned_view(assigned@), vb.end_bound, 0) == later_assignment(assigned_view(assigned@), vb.end_bound, j as int),
        decreases assigned.len() - j,
    {
        j = j + 1;
    }
    if j < assigned.len() {
        let t = assigned[j].1.0.clone();
        put_assigned(assigned, ip.clone(), t.clone(), vb.start_bound);
        Some(t)
    } else {
        None
    }
}

proof fn lemma_rewardable_steps_ok(
    ns: Seq<(Seq<char>, (NodeRecord, RegistryVersionBounds))>,
    ops: Seq<NodeOperatorRecord>,
    dcs: Seq<DataCenterRecord>,
    from: DayUTC,
    to: DayUTC,
    k: int,
)
    requires
        rewardable_steps(ns, ops, dcs, from, to).ok,
        0 <= k <= ns.len(),
    ensures
        rewardable_steps(ns.skip(k), ops, dcs, from, to).ok,
    decreases ns.len(),
{
    if k > 0 {
        lemma_rewardable_steps_ok(ns.skip(1), ops, dcs, from, to, k - 1);
        assert(ns.skip(1).skip(k - 1) =~= ns.skip(k));
    } else {
        assert(ns.skip(0) =~= ns);
    }
}

fn empty_provider(p: &String) -> (r: ProviderRewardableNodes)
    ensures
        provider_view(r) == (p@, Seq::<((Seq<char>, Seq<char>), u32)>::empty(), Seq::<NodeView>::empty()),
{
    let r = ProviderRewardableNodes { provider_id: p.clone(), rewardable_nodes_count: Vec::new(), rewardable_nodes: Vec::new() };
    assert(counts_view(r.rewardable_nodes_count@) =~= Seq::<((Seq<char>, Seq<char>), u32)>::empty());
    assert(r.rewardable_nodes@.map_values(|n: RewardableNode| node_view(n)) =~= Seq::<NodeView>::empty());
    r
}

/// One node of [`rewardable_step`], on the providers and operators held so far.
fn rewardable_node(
    provs: &mut Vec<(String, ProviderRewardableNodes)>,
    opst: &mut Vec<(String, OperatorState)>,
    node: &(String, (NodeRecord, RegistryVersionBounds)),
    operators: &Vec<NodeOperatorRecord>,
    data_centers: &Vec<DataCenterRecord>,
    from: DayUTC,
    to: DayUTC,
    Ghost(ok): Ghost<bool>,
)
    requires
        data_centers_known(operators@, data_centers@),
        rewardable_step(
            RewardablesState { providers: providers_view(old(provs)@), operators: operators_view(old(opst)@), ok },
            (node.0@, node.1),
            operators@,
            data_centers@,
            from,
            to,
        ).ok,
    ensures
        ({
            let st = rewardable_step(
                RewardablesState { providers: providers_view(old(provs)@), operators: operators_view(old(opst)@), ok },
                (node.0@, node.1),
                operators@,
                data_centers@,
                from,
                to,
            );
            providers_view(final(provs)@) == st.providers && operators_view(final(opst)@) == st.operators
        }),
{
    let ghost st0 = RewardablesState { providers: providers_view(provs@), operators: operators_view(opst@), ok };
    let rec = &node.1.0;
    let vb = node.1.1;
    let op = &rec.node_operator_id;
    proof {
        lemma_last_operator_bounds(operators@, op@);
    }
    let oi = match find_operator(operators, op.as_str()) {
        Some(oi) => oi,
        None => {
            return;
        },
    };
    let o = &operators[oi];
    proof {
        assert(last_operator(operators@, operators@[oi as int].node_operator_principal_id@) == oi);
        lemma_dc_pos_bounds(data_centers@, o.dc_id@);
    }
    let di = find_dc(data_centers, o.dc_id.as_str()).unwrap();
    let region = &data_centers[di].region;
    let p = &o.node_provider_principal_id;
    proof {
        lemma_assoc_pos_same_keys(keyed(provs@), providers_view(provs@), p@);
        lemma_assoc_pos_bounds(providers_view(provs@), p@);
        lemma_assoc_pos_same_keys(keyed(opst@), operators_view(opst@), op@);
        lemma_assoc_pos_bounds(operators_view(opst@), op@);
    }
    let ghost pv0 = providers_view(provs@);
    let ghost ov0 = operators_view(opst@);
    let pfound = find_key(provs, p.as_str());
    let sfound = find_key(opst, op.as_str());
    let (pkey, mut prov) = match pfound {
        Some(pi) => provs.remove(pi),
        None => (p.clone(), empty_provider(p)),
    };
    let ghost prov0 = provider_view(prov);
    let ghost added = add_counts(prov0.1, region@, o.rewardable_nodes@);
    let (okey, (mut counts, mut assigned)) = match sfound {
        Some(si) => opst.remove(si),
        None => {
            add_operator_counts(&mut prov.rewardable_nodes_count, region, &o.rewardable_nodes);
            let mut fresh: Vec<(String, (String, u64))> = Vec::new();
            assert(assigned_view(fresh@) =~= Seq::<(Seq<char>, (Seq<char>, u64))>::empty());
            (op.clone(), (copy_counts(&o.rewardable_nodes), fresh))
        },
    };
    let ghost prov1 = provider_view(prov);
    let ghost os0 = (counts@, assigned_view(assigned@));
    match &rec.ip_addr {
        None => {
            assert(false);
        },
        Some(ip) => {
            let t = assign_type(ip, vb, &mut counts, &mut assigned);
            match t {
                Some(ty) => {
                    let ghost before = prov.rewardable_nodes@;
                    let n = RewardableNode {
                        node_id: node.0.clone(),
                        node_type: ty,
                        dc_id: o.dc_id.clone(),
                        region: region.clone(),
                        rewardable_from: from,
                        rewardable_to: to,
                    };
                    prov.rewardable_nodes.push(n);
                    assert(prov.rewardable_nodes@.map_values(|n: RewardableNode| node_view(n)) =~= before.map_values(
                        |n: RewardableNode| node_view(n),
                    ).push(node_view(n)));
                },
                None => {},
            }
            let ghost pv = provider_view(prov);
            let ghost pk = pkey@;
            match pfound {
                Some(pi) => {
                    provs.insert(pi, (pkey, prov));
                    assert(providers_view(provs@) =~= pv0.update(pi as int, (pk, pv)));
                },
                None => {
                    provs.push((pkey, prov));
                    assert(providers_view(provs@) =~= pv0.push((pk, pv)));
                },
            }
            let ghost osv = (counts@, assigned_view(assigned@));
            let ghost ok_ = okey@;
            match sfound {
                Some(si) => {
                    opst.insert(si, (okey, (counts, assigned)));
                    assert(operators_view(opst@) =~= ov0.update(si as int, (ok_, osv)));
                },
                None => {
                    opst.push((okey, (counts, assigned)));
                    assert(operators_view(opst@) =~= ov0.push((ok_, osv)));
                },
            }
        },
    }
}

/// The day that holds `ts`.
pub open spec fn day_of(ts: TimestampNanos) -> DayUTC {
    DayUTC(DayEndNanos(spec_day_end(ts as int) as u64))
}

/// The range of versions over which nodes are rewarded: the last hundred versions up to the
/// latest.
pub open spec fn reward_versions(latest_version: u64) -> RegistryVersionBounds {
    RegistryVersionBounds { start_bound: (latest_version - 100) as u64, end_bound: latest_version }
}

/// The rewardable nodes of each provider (see [`rewardable_steps`]), over the nodes that the
/// registry held in the last hundred versions, taken from the last registered to the first.
pub open spec fn spec_rewardables(
    latest_version: u64,
    entries: Seq<NodeRegistryEntry>,
    ops: Seq<NodeOperatorRecord>,
    dcs: Seq<DataCenterRecord>,
    start_ts: TimestampNanos,
    end_ts: TimestampNanos,
) -> RewardablesState {
    rewardable_steps(spec_nodes_in_range(entries, reward_versions(latest_version)), ops, dcs, day_of(start_ts), day_of(end_ts))
}

/// The rewardable nodes of each node provider, in the order in which the providers first come
/// up. The nodes are those that the registry held over the last hundred versions up to
/// `latest_version` (from the entries of the node records, see [`nodes_in_range`]), taken from
/// the last registered to the first; a node counts when its operator is among `operators` (the
/// records at the latest version), and gets a node type from its operator's rewardable counts
/// (see [`node_type_of`]); a node that gets none is left out. Each provider also counts, by
/// (region, node type), what its operators are rewarded for. The nodes are rewardable from the
/// day of `start_ts` to the day of `end_ts`.
///
/// An operator whose data center is not among `data_centers`, a node of a known operator
/// without an address, and a count that overflows are left out by `requires`.
pub fn get_rewardable_nodes_per_provider(
    latest_version: u64,
    node_entries: &Vec<NodeRegistryEntry>,
    operators: &Vec<NodeOperatorRecord>,
    data_centers: &Vec<DataCenterRecord>,
    start_ts: TimestampNanos,
    end_ts: TimestampNanos,
) -> (r: Vec<(String, ProviderRewardableNodes)>)
    requires
        latest_version >= 100,
        aligned_in_range(start_ts as int),
        aligned_in_range(end_ts as int),
        data_centers_known(operators@, data_centers@),
        spec_rewardables(latest_version, node_entries@, operators@, data_centers@, start_ts, end_ts).ok,
    ensures
        providers_view(r@) == spec_rewardables(latest_version, node_entries@, operators@, data_centers@, start_ts, end_ts).providers,
{
    let bounds = RegistryVersionBounds { start_bound: latest_version - 100, end_bound: latest_version };
    let nodes = nodes_in_range(node_entries, bounds);
    let from = DayUTC::from(start_ts);
    let to = DayUTC::from(end_ts);
    let ghost ns = keyed(nodes@);
    let ghost ops = operators@;
    let ghost dcs = data_centers@;
    let mut provs: Vec<(String, ProviderRewardableNodes)> = Vec::new();
    let mut opst: Vec<(String, OperatorState)> = Vec::new();
    let mut i: usize = nodes.len();
    assert(ns.skip(ns.len() as int) =~= Seq::<(Seq<char>, (NodeRecord, RegistryVersionBounds))>::empty());
    assert(providers_view(provs@) =~= Seq::<(Seq<char>, ProviderView)>::empty());
    assert(operators_view(opst@) =~= Seq::<(Seq<char>, OperatorView)>::empty());
    while i > 0
        invariant
            i <= nodes@.len(),
            ns == keyed(nodes@),
            ns == spec_nodes_in_range(node_entries@, bounds),
            from == day_of(start_ts),
            to == day_of(end_ts),
            data_centers_known(ops, dcs),
            ops == operators@,
            dcs == data_centers@,
            rewardable_steps(ns, ops, dcs, from, to).ok,
            providers_view(provs@) == rewardable_steps(ns.skip(i as int), ops, dcs, from, to).providers,
            operators_view(opst@) == rewardable_steps(ns.skip(i as int), ops, dcs, from, to).operators,
        decreases i,
    {
        let ghost rest = ns.skip(i as int - 1);
        assert(rest.skip(1) =~= ns.skip(i as int));
        assert(rest[0] == ns[i as int - 1]);
        assert(ns[i as int - 1] == (nodes@[i as int - 1].0@, nodes@[i as int - 1].1));
        proof {
            lemma_rewardable_steps_ok(ns, ops, dcs, from, to, i as int - 1);
        }
        let ghost st = rewardable_steps(ns.skip(i as int), ops, dcs, from, to);
        rewardable_node(&mut provs, &mut opst, &nodes[i - 1], operators, data_centers, from, to, Ghost(st.ok));
        i = i - 1;
    }
    assert(ns.skip(0) =~= ns);
    provs
}

/// Whether some pair has key `k`.
pub open spec fn has_key<K, V>(m: Seq<(K, V)>, k: K) -> bool {
    exists|i: int| 0 <= i < m.len() && #[trigger] m[i].0 == k
}

/// Whether no key occurs twice.
pub open spec fn unique_keys<K, V>(m: Seq<(K, V)>) -> bool {
    forall|i: int, j: int| 0 <= i < j < m.len() ==> #[trigger] m[i].0 != #[trigger] m[j].0
}

proof fn lemma_assoc_pos_absent<K, V>(m: Seq<(K, V)>, k: K)
    requires
        assoc_pos(m, k) == -1,
    ensures
        !has_key(m, k),
    decreases m.len(),
{
    if m.len() > 0 {
        lemma_assoc_pos_absent(m.drop_last(), k);
        assert forall|i: int| 0 <= i < m.len() implies #[trigger] m[i].0 != k by {
            if i < m.len() - 1 {
                assert(m.drop_last()[i] == m[i]);
            }
        }
    }
}

proof fn lemma_assoc_put_keys<K, V>(m: Seq<(K, V)>, k: K, v: V, x: K)
    requires
        unique_keys(m),
    ensures
        unique_keys(assoc_put(m, k, v)),
        has_key(assoc_put(m, k, v), x) <==> (has_key(m, x) || x == k),
{
    lemma_assoc_pos_bounds(m, k);
    let i = assoc_pos(m, k);
    let r = assoc_put(m, k, v);
    if i >= 0 {
        assert forall|a: int, b: int| 0 <= a < b < r.len() implies #[trigger] r[a].0 != #[trigger] r[b].0 by {
            assert(r[a].0 == m[a].0);
            assert(r[b].0 == m[b].0);
        }
        if has_key(m, x) {
            let j = choose|j: int| 0 <= j < m.len() && #[trigger] m[j].0 == x;
            assert(r[j].0 == x);
        }
        if has_key(r, x) {
            let j = choose|j: int| 0 <= j < r.len() && #[trigger] r[j].0 == x;
            assert(m[j].0 == x);
        }
    } else {
        lemma_assoc_pos_absent(m, k);
        assert forall|a: int, b: int| 0 <= a < b < r.len() implies #[trigger] r[a].0 != #[trigger] r[b].0 by {
            if b == m.len() {
                assert(r[a] == m[a]);
            } else {
                assert(r[a] == m[a] && r[b] == m[b]);
            }
        }
        if has_key(m, x) {
            let j = choose|j: int| 0 <= j < m.len() && #[trigger] m[j].0 == x;
            assert(r[j].0 == x);
        }
        if x == k {
            assert(r[m.len() as int].0 == x);
        }
        if has_key(r, x) {
            let j = choose|j: int| 0 <= j < r.len() && #[trigger] r[j].0 == x;
            if j < m.len() {
                assert(m[j].0 == x);
            }
        }
    }
}

proof fn lemma_assoc_del_keys<K, V>(m: Seq<(K, V)>, k: K, x: K)
    requires
        unique_keys(m),
    ensures
        unique_keys(assoc_del(m, k)),
        has_key(assoc_del(m, k), x) <==> (has_key(m, x) && x != k),
{
    lemma_assoc_pos_bounds(m, k);
    let i = assoc_pos(m, k);
    let r = assoc_del(m, k);
    if i >= 0 {
        assert forall|a: int| 0 <= a < r.len() implies #[trigger] r[a] == if a < i { m[a] } else { m[a + 1] } by {}
        assert forall|a: int, b: int| 0 <= a < b < r.len() implies #[trigger] r[a].0 != #[trigger] r[b].0 by {
            assert(r[a] == if a < i { m[a] } else { m[a + 1] });
            assert(r[b] == if b < i { m[b] } else { m[b + 1] });
        }
        if has_key(r, x) {
            let j = choose|j: int| 0 <= j < r.len() && #[trigger] r[j].0 == x;
            assert(r[j] == if j < i { m[j] } else { m[j + 1] });
            if j < i {
                assert(m[j].0 == x && m[i].0 == k);
            } else {
                assert(m[j + 1].0 == x && m[i].0 == k);
            }
        }
        if has_key(m, x) && x != k {
            let j = choose|j: int| 0 <= j < m.len() && #[trigger] m[j].0 == x;
            if j < i {
                assert(r[j] == m[j]);
            } else {
                assert(j != i);
                assert(r[j - 1] == m[j]);
            }
        }
    } else {
        lemma_assoc_pos_absent(m, k);
    }
}

proof fn lemma_range_steps_unique(es: Seq<NodeRegistryEntry>, b: RegistryVersionBounds)
    ensures
        unique_keys(range_steps(es, b)),
    decreases es.len(),
{
    if es.len() > 0 {
        lemma_range_steps_unique(es.drop_last(), b);
        let m = range_steps(es.drop_last(), b);
        let id = es.last().node_id@;
        lemma_assoc_pos_bounds(m, id);
        let i = assoc_pos(m, id);
        if i >= 0 {
            let c = m[i].1;
            lemma_assoc_put_keys(m, id, (c.0, c.1, c.2, c.3), id);
        }
        match es.last().record {
            Some(r) => {
                lemma_assoc_put_keys(m, id, (b.start_bound, b.end_bound, if i >= 0 { m[i].1.2 } else { es.last().version }, r), id);
                if i >= 0 {
                    let c = m[i].1;
                    lemma_assoc_put_keys(m, id, (c.0, c.1, c.2, r), id);
                } else {
                    lemma_assoc_put_keys(m, id, (es.last().version, b.end_bound, es.last().version, r), id);
                }
            },
            None => {
                lemma_assoc_del_keys(m, id, id);
                if i >= 0 {
                    let c = m[i].1;
                    lemma_assoc_put_keys(m, id, (c.0, es.last().version, c.2, c.3), id);
                }
            },
        }
    }
}

proof fn lemma_range_step_other(m: Seq<(Seq<char>, RangeEntry)>, e: NodeRegistryEntry, b: RegistryVersionBounds, id: Seq<char>)
    requires
        unique_keys(m),
        e.node_id@ != id || e.version > b.end_bound,
    ensures
        has_key(range_step(m, e, b), id) <==> has_key(m, id),
{
    let k = e.node_id@;
    lemma_assoc_pos_bounds(m, k);
    let i = assoc_pos(m, k);
    if e.version <= b.end_bound {
        match e.record {
            Some(r) => {
                lemma_assoc_put_keys(m, k, (b.start_bound, b.end_bound, if i >= 0 { m[i].1.2 } else { e.version }, r), id);
                if i >= 0 {
                    let c = m[i].1;
                    lemma_assoc_put_keys(m, k, (c.0, c.1, c.2, r), id);
                } else {
                    lemma_assoc_put_keys(m, k, (e.version, b.end_bound, e.version, r), id);
                }
            },
            None => {
                lemma_assoc_del_keys(m, k, id);
                if i >= 0 {
                    let c = m[i].1;
                    lemma_assoc_put_keys(m, k, (c.0, e.version, c.2, c.3), id);
                }
            },
        }
    }
}

proof fn lemma_removed_stays_out(es: Seq<NodeRegistryEntry>, b: RegistryVersionBounds, id: Seq<char>, k: int)
    requires
        b.start_bound <= b.end_bound,
        0 <= k < es.len(),
        es[k].node_id@ == id,
        es[k].version <= b.start_bound,
        es[k].record is None,
        forall|j: int| k < j < es.len() && #[trigger] es[j].node_id@ == id ==> es[j].version > b.end_bound,
    ensures
        !has_key(range_steps(es, b), id),
    decreases es.len(),
{
    let m = range_steps(es.drop_last(), b);
    lemma_range_steps_unique(es.drop_last(), b);
    if k == es.len() - 1 {
        lemma_assoc_del_keys(m, id, id);
    } else {
        assert forall|j: int| k < j < es.drop_last().len() && #[trigger] es.drop_last()[j].node_id@ == id implies es.drop_last()[j].version
            > b.end_bound by {
            assert(es.drop_last()[j] == es[j]);
        }
        lemma_removed_stays_out(es.drop_last(), b, id, k);
        let last = es.last();
        assert(es[es.len() - 1] == last);
        lemma_range_step_other(m, last, b, id);
    }
}

proof fn lemma_by_registration_from(s: Seq<(Seq<char>, RangeEntry)>)
    ensures
        by_registration(s).len() == s.len(),
        forall|i: int| 0 <= i < s.len() ==> exists|j: int| 0 <= j < s.len() && #[trigger] by_registration(s)[i] == s[j],
    decreases s.len(),
{
    lemma_by_registration_len(s);
    if s.len() > 0 {
        let o = by_registration(s.drop_last());
        lemma_by_registration_from(s.drop_last());
        let pos = registration_pos(o, s.last().1.2, o.len() as int);
        lemma_registration_pos_bounds(o, s.last().1.2, o.len() as int);
        assert forall|i: int| 0 <= i < s.len() implies exists|j: int| 0 <= j < s.len() && #[trigger] by_registration(s)[i] == s[j] by {
            let r = by_registration(s);
            if i < pos {
                assert(r[i] == o[i]);
                let j = choose|j: int| 0 <= j < s.drop_last().len() && #[trigger] o[i] == s.drop_last()[j];
                assert(r[i] == s[j]);
            } else if i == pos {
                assert(r[i] == s[s.len() - 1]);
            } else {
                assert(r[i] == o[i - 1]);
                let j = choose|j: int| 0 <= j < s.drop_last().len() && #[trigger] o[i - 1] == s.drop_last()[j];
                assert(r[i] == s[j]);
            }
        }
    }
}

/// A node whose last entry up to the end of the range removed it, at or before the start of the
/// range, is not among the nodes in the range: nodes removed before the range are left out.
pub proof fn lemma_removed_before_range_left_out(es: Seq<NodeRegistryEntry>, b: RegistryVersionBounds, id: Seq<char>, k: int)
    requires
        b.start_bound <= b.end_bound,
        0 <= k < es.len(),
        es[k].node_id@ == id,
        es[k].version <= b.start_bound,
        es[k].record is None,
        forall|j: int| k < j < es.len() && #[trigger] es[j].node_id@ == id ==> es[j].version > b.end_bound,
    ensures
        forall|i: int| 0 <= i < spec_nodes_in_range(es, b).len() ==> #[trigger] spec_nodes_in_range(es, b)[i].0 != id,
{
    let m = range_steps(es, b);
    lemma_removed_stays_out(es, b, id, k);
    lemma_by_registration_from(m);
    assert forall|i: int| 0 <= i < spec_nodes_in_range(es, b).len() implies #[trigger] spec_nodes_in_range(es, b)[i].0 != id by {
        let j = choose|j: int| 0 <= j < m.len() && #[trigger] by_registration(m)[i] == m[j];
        assert(spec_nodes_in_range(es, b)[i].0 == m[j].0);
        if m[j].0 == id {
            assert(has_key(m, id));
        }
    }
}

} // verus!
