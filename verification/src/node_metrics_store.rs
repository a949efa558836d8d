//! The stored daily metrics of nodes, by time and node, and the queries on them.
use vstd::prelude::*;
use crate::daily_metrics::{all_reports, by_time, groups_of, node_metrics_storable, grouped_by_node, stored_at, NodeMetrics, NodeMetricsGrouped, NodeMetricsStored};
use crate::features::str_less_eq;
use crate::metrics_store::{key_lt, lemma_key_lt_total, lemma_key_lt_transitive};
use crate::registry::{find_key, keyed, put_key};
use crate::subnet::str_eq;
use crate::subnet_metrics::{assoc_pos, assoc_put, lemma_assoc_pos_bounds};

verus! {

/// A stored entry: (time, node) and the node's metrics.
pub type NodeMetricsEntry = ((u64, String), NodeMetricsStored);

/// The key of an entry.
pub open spec fn entry_key(e: NodeMetricsEntry) -> (u64, Seq<char>) {
    (e.0.0, e.0.1@)
}

/// The entries are in strictly ascending order of their keys.
pub open spec fn entries_ordered(s: Seq<NodeMetricsEntry>) -> bool {
    forall|i: int, j: int| 0 <= i < j < s.len() ==> key_lt(#[trigger] entry_key(s[i]), #[trigger] entry_key(s[j]))
}

/// Where an entry with key `k` goes among `s`, looking from `from`.
pub open spec fn entry_pos(s: Seq<NodeMetricsEntry>, k: (u64, Seq<char>), from: int) -> int
    decreases s.len() - from,
{
    if from >= s.len() {
        s.len() as int
    } else if key_lt(entry_key(s[from]), k) {
        entry_pos(s, k, from + 1)
    } else {
        from
    }
}

/// The entries with `e` stored: in place of the entry with the same key, or at its place in the
/// order.
pub open spec fn entries_put(s: Seq<NodeMetricsEntry>, e: NodeMetricsEntry) -> Seq<NodeMetricsEntry> {
    let i = entry_pos(s, entry_key(e), 0);
    if i < s.len() && entry_key(s[i]) == entry_key(e) {
        s.update(i, e)
    } else {
        s.insert(i, e)
    }
}

proof fn lemma_entry_pos(s: Seq<NodeMetricsEntry>, k: (u64, Seq<char>), from: int)
    requires
        0 <= from <= s.len(),
    ensures
        from <= entry_pos(s, k, from) <= s.len(),
        forall|j: int| from <= j < entry_pos(s, k, from) ==> key_lt(#[trigger] entry_key(s[j]), k),
        entry_pos(s, k, from) < s.len() ==> !key_lt(entry_key(s[entry_pos(s, k, from)]), k),
    decreases s.len() - from,
{
    if from < s.len() && key_lt(entry_key(s[from]), k) {
        lemma_entry_pos(s, k, from + 1);
    }
}

/// Storing an entry keeps the entries in order.
pub proof fn lemma_entries_put_ordered(s: Seq<NodeMetricsEntry>, e: NodeMetricsEntry)
    requires
        entries_ordered(s),
    ensures
        entries_ordered(entries_put(s, e)),
{
    let k = entry_key(e);
    let i = entry_pos(s, k, 0);
    lemma_entry_pos(s, k, 0);
    let t = entries_put(s, e);
    if i < s.len() && entry_key(s[i]) == k {
        assert forall|a: int, b: int| 0 <= a < b < t.len() implies key_lt(#[trigger] entry_key(t[a]), #[trigger] entry_key(t[b])) by {
            assert(entry_key(t[a]) == entry_key(s[a]));
            assert(entry_key(t[b]) == entry_key(s[b]));
        }
    } else {
        if i < s.len() {
            lemma_key_lt_total(entry_key(s[i]), k);
        }
        assert forall|a: int, b: int| 0 <= a < b < t.len() implies key_lt(#[trigger] entry_key(t[a]), #[trigger] entry_key(t[b])) by {
            if b < i {
                assert(t[a] == s[a] && t[b] == s[b]);
            } else if b == i {
                assert(t[a] == s[a] && t[b] == e);
            } else if a < i {
                assert(t[a] == s[a] && t[b] == s[b - 1]);
                lemma_key_lt_transitive(entry_key(s[a]), k, entry_key(s[i]));
                if i < b - 1 {
                    lemma_key_lt_transitive(entry_key(s[a]), entry_key(s[i]), entry_key(s[b - 1]));
                }
            } else if a == i {
                assert(t[a] == e && t[b] == s[b - 1]);
                if i < b - 1 {
                    lemma_key_lt_transitive(k, entry_key(s[i]), entry_key(s[b - 1]));
                }
            } else {
                assert(t[a] == s[a - 1] && t[b] == s[b - 1]);
            }
        }
    }
}

/// After an entry is stored, it is the only entry under its key, and every entry under another
/// key is still there: what a read gives back of a write.
pub proof fn lemma_entries_put_read_back(s: Seq<NodeMetricsEntry>, e: NodeMetricsEntry)
    requires
        entries_ordered(s),
    ensures
        entries_ordered(entries_put(s, e)),
        entries_put(s, e).contains(e),
        forall|i: int| 0 <= i < entries_put(s, e).len() && entry_key(#[trigger] entries_put(s, e)[i]) == entry_key(e) ==> entries_put(s, e)[i] == e,
        forall|x: NodeMetricsEntry| #[trigger] s.contains(x) && entry_key(x) != entry_key(e) ==> entries_put(s, e).contains(x),
{
    lemma_entries_put_ordered(s, e);
    let k = entry_key(e);
    let i = entry_pos(s, k, 0);
    lemma_entry_pos(s, k, 0);
    let t = entries_put(s, e);
    let replaced = i < s.len() && entry_key(s[i]) == k;
    assert(t[i] == e);
    assert forall|j: int| 0 <= j < t.len() && entry_key(#[trigger] t[j]) == k implies t[j] == e by {
        if j != i {
            if j < i {
                assert(key_lt(entry_key(t[j]), entry_key(t[i])));
            } else {
                assert(key_lt(entry_key(t[i]), entry_key(t[j])));
            }
            lemma_key_lt_total(k, k);
        }
    }
    assert forall|x: NodeMetricsEntry| #[trigger] s.contains(x) && entry_key(x) != k implies t.contains(x) by {
        let j = choose|j: int| 0 <= j < s.len() && s[j] == x;
        if replaced {
            assert(j != i);
            assert(t[j] == x);
        } else if j < i {
            assert(t[j] == x);
        } else {
            assert(t[j + 1] == x);
        }
    }
}

/// Whether an entry is in the range of times from `from` to `to` and of the nodes `filter`
/// (any node without one).
pub open spec fn in_range(e: NodeMetricsEntry, from: u64, to: u64, filter: Option<Seq<Seq<char>>>) -> bool {
    from <= e.0.0 <= to && match filter {
        Some(f) => f.contains(e.0.1@),
        None => true,
    }
}

/// The latest metrics of each node among `nodes`: for the entries in order, those of a node
/// among `nodes` replace what the node had.
pub open spec fn latest_of(s: Seq<NodeMetricsEntry>, nodes: Seq<Seq<char>>) -> Seq<(Seq<char>, NodeMetricsStored)>
    decreases s.len(),
{
    if s.len() == 0 {
        Seq::empty()
    } else if nodes.contains(s.last().0.1@) {
        assoc_put(latest_of(s.drop_last(), nodes), s.last().0.1@, s.last().1)
    } else {
        latest_of(s.drop_last(), nodes)
    }
}

/// The stored daily metrics of nodes, in ascending order of (time, node).
pub struct NodeMetricsStore {
    pub nodes_metrics: Vec<NodeMetricsEntry>,
}

fn contains_text(v: &Vec<String>, t: &str) -> (r: bool)
    ensures
        r == v@.map_values(|s: String| s@).contains(t@),
{
    let ghost vv = v@.map_values(|s: String| s@);
    let mut i: usize = 0;
    while i < v.len()
        invariant
            i <= v@.len(),
            vv == v@.map_values(|s: String| s@),
            forall|j: int| 0 <= j < i ==> vv[j] != t@,
        decreases v.len() - i,
    {
        if str_eq(v[i].as_str(), t) {
            assert(vv[i as int] == t@);
            return true;
        }
        i = i + 1;
    }
    false
}

fn copy_entry(e: &NodeMetricsEntry) -> (r: NodeMetricsEntry)
    ensures
        r == *e,
{
    let m = &e.1;
    (
        (e.0.0, e.0.1.clone()),
        NodeMetricsStored {
            subnet_assigned: m.subnet_assigned.clone(),
            num_blocks_proposed_total: m.num_blocks_proposed_total,
            num_blocks_failures_total: m.num_blocks_failures_total,
            num_blocks_proposed: m.num_blocks_proposed,
            num_blocks_failed: m.num_blocks_failed,
        },
    )
}

fn entry_less(a: &NodeMetricsEntry, ts: u64, node: &str) -> (r: bool)
    ensures
        r == key_lt(entry_key(*a), (ts, node@)),
{
    a.0.0 < ts || (a.0.0 == ts && str_less_eq(a.0.1.as_str(), node) && !str_eq(a.0.1.as_str(), node))
}

impl NodeMetricsStore {
    /// The entries are in order.
    pub open spec fn wf(&self) -> bool {
        entries_ordered(self.nodes_metrics@)
    }

    /// Nothing stored.
    pub fn new() -> (r: Self)
        ensures
            r.wf(),
            r.nodes_metrics@.len() == 0,
    {
        NodeMetricsStore { nodes_metrics: Vec::new() }
    }

    /// Stores the metrics `value` of a node under `key` (time, node), in place of those stored
    /// under the same key.
    pub fn insert_node_metrics(&mut self, key: (u64, String), value: NodeMetricsStored)
        requires
            old(self).wf(),
        ensures
            final(self).wf(),
            final(self).nodes_metrics@ == entries_put(old(self).nodes_metrics@, (key, value)),
            final(self).nodes_metrics@.contains((key, value)),
            forall|i: int|
                0 <= i < final(self).nodes_metrics@.len() && entry_key(#[trigger] final(self).nodes_metrics@[i]) == entry_key(
                    (key, value),
                ) ==> final(self).nodes_metrics@[i] == (key, value),
            forall|x: NodeMetricsEntry|
                #[trigger] old(self).nodes_metrics@.contains(x) && entry_key(x) != entry_key((key, value))
                    ==> final(self).nodes_metrics@.contains(x),
    {
        let ghost e = (key, value);
        proof {
            lemma_entries_put_read_back(self.nodes_metrics@, e);
            lemma_entries_put_ordered(self.nodes_metrics@, e);
            lemma_entry_pos(self.nodes_metrics@, entry_key(e), 0);
        }
        let mut i: usize = 0;
        while i < self.nodes_metrics.len() && entry_less(&self.nodes_metrics[i], key.0, key.1.as_str())
            invariant
                i <= self.nodes_metrics@.len(),
                e == (key, value),
                entry_pos(self.nodes_metrics@, entry_key(e), 0) == entry_pos(self.nodes_metrics@, entry_key(e), i as int),
            decreases self.nodes_metrics.len() - i,
        {
            i = i + 1;
        }
        if i < self.nodes_metrics.len() && self.nodes_metrics[i].0.0 == key.0 && str_eq(self.nodes_metrics[i].0.1.as_str(), key.1.as_str()) {
            self.nodes_metrics.set(i, (key, value));
        } else {
            self.nodes_metrics.insert(i, (key, value));
        }
    }

    /// The time of the latest entry, if there is one: the greatest time of all entries.
    pub fn latest_ts(&self) -> (r: Option<u64>)
        requires
            self.wf(),
        ensures
            r == if self.nodes_metrics@.len() == 0 {
                None::<u64>
            } else {
                Some(self.nodes_metrics@.last().0.0)
            },
            r matches Some(t) ==> forall|i: int| 0 <= i < self.nodes_metrics@.len() ==> (#[trigger] self.nodes_metrics@[i]).0.0 <= t,
    {
        if self.nodes_metrics.len() == 0 {
            None
        } else {
            let ghost s = self.nodes_metrics@;
            assert forall|i: int| 0 <= i < s.len() implies (#[trigger] s[i]).0.0 <= s.last().0.0 by {
                if i < s.len() - 1 {
                    assert(key_lt(entry_key(s[i]), entry_key(s[s.len() - 1])));
                }
            }
            Some(self.nodes_metrics[self.nodes_metrics.len() - 1].0.0)
        }
    }

    /// The entries from time `from_ts` to `to_ts` (no bound without one), of the nodes
    /// `node_ids_filter` (of all nodes without one), in order.
    pub fn get_metrics_range(&self, from_ts: u64, to_ts: Option<u64>, node_ids_filter: Option<&Vec<String>>) -> (r: Vec<NodeMetricsEntry>)
        ensures
            ({
                let to = match to_ts {
                    Some(t) => t,
                    None => u64::MAX,
                };
                let f = match node_ids_filter {
                    Some(v) => Some(v@.map_values(|s: String| s@)),
                    None => None,
                };
                r@ == self.nodes_metrics@.filter(|e: NodeMetricsEntry| in_range(e, from_ts, to, f))
            }),
    {
        let to = match to_ts {
            Some(t) => t,
            None => u64::MAX,
        };
        let ghost f = match node_ids_filter {
            Some(v) => Some(v@.map_values(|s: String| s@)),
            None => None::<Seq<Seq<char>>>,
        };
        let s = &self.nodes_metrics;
        let mut r: Vec<NodeMetricsEntry> = Vec::new();
        let mut i: usize = 0;
        assert(s@.take(0).filter(|e: NodeMetricsEntry| in_range(e, from_ts, to, f)) =~= Seq::<NodeMetricsEntry>::empty()) by {
            reveal(Seq::filter);
        }
        while i < s.len()
            invariant
                i <= s@.len(),
                r@ == s@.take(i as int).filter(|e: NodeMetricsEntry| in_range(e, from_ts, to, f)),
                f == match node_ids_filter {
                    Some(v) => Some(v@.map_values(|s: String| s@)),
                    None => None,
                },
            decreases s.len() - i,
        {
            let ghost t = s@.take(i as int + 1);
            assert(t.drop_last() =~= s@.take(i as int));
            assert(t.last() == s@[i as int]);
            let e = &s[i];
            let in_filter = match node_ids_filter {
                Some(v) => contains_text(v, e.0.1.as_str()),
                None => true,
            };
            let keep = from_ts <= e.0.0 && e.0.0 <= to && in_filter;
            assert(keep == in_range(s@[i as int], from_ts, to, f));
            assert(t.filter(|e: NodeMetricsEntry| in_range(e, from_ts, to, f)) == if keep {
                s@.take(i as int).filter(|e: NodeMetricsEntry| in_range(e, from_ts, to, f)).push(s@[i as int])
            } else {
                s@.take(i as int).filter(|e: NodeMetricsEntry| in_range(e, from_ts, to, f))
            }) by {
                reveal(Seq::filter);
            }
            if keep {
                r.push(copy_entry(e));
            }
            i = i + 1;
        }
        assert(s@.take(s@.len() as int) =~= s@);
        r
    }

    /// The latest metrics of each of the nodes `nodes_principal` that has some, in the order in
    /// which the nodes first come up among the entries (see [`latest_of`]).
    pub fn latest_metrics(&self, nodes_principal: &Vec<String>) -> (r: Vec<(String, NodeMetricsStored)>)
        ensures
            keyed(r@) == latest_of(self.nodes_metrics@, nodes_principal@.map_values(|s: String| s@)),
    {
        let ghost nv = nodes_principal@.map_values(|s: String| s@);
        let s = &self.nodes_metrics;
        let mut r: Vec<(String, NodeMetricsStored)> = Vec::new();
        let mut i: usize = 0;
        assert(keyed(r@) =~= latest_of(s@.take(0), nv));
        while i < s.len()
            invariant
                i <= s@.len(),
                nv == nodes_principal@.map_values(|s: String| s@),
                keyed(r@) == latest_of(s@.take(i as int), nv),
            decreases s.len() - i,
        {
            let ghost t = s@.take(i as int + 1);
            assert(t.drop_last() =~= s@.take(i as int));
            assert(t.last() == s@[i as int]);
            let e = &s[i];
            if contains_text(nodes_principal, e.0.1.as_str()) {
                let c = copy_entry(e);
                put_key(&mut r, c.0.1, c.1);
            }
            i = i + 1;
        }
        assert(s@.take(s@.len() as int) =~= s@);
        r
    }
}

/// The entries `adds` stored one after the other.
pub open spec fn entries_put_all(s: Seq<NodeMetricsEntry>, adds: Seq<NodeMetricsEntry>) -> Seq<NodeMetricsEntry>
    decreases adds.len(),
{
    if adds.len() == 0 {
        s
    } else {
        entries_put(entries_put_all(s, adds.drop_last()), adds.last())
    }
}

/// The running totals a node starts from: its latest stored ones, or zero.
pub open spec fn initial_totals(latest: Seq<(Seq<char>, NodeMetricsStored)>, node: Seq<char>) -> (u64, u64) {
    let i = assoc_pos(latest, node);
    if i >= 0 {
        (latest[i].1.num_blocks_proposed_total, latest[i].1.num_blocks_failures_total)
    } else {
        (0, 0)
    }
}

/// `adds` are what is stored for the reports grouped by node `g`: for each node, an entry for
/// each of its reports in order of time, with its running totals and its blocks of the day
/// counted from its initial totals in `latest` (see [`stored_at`]).
pub open spec fn sync_adds(g: Seq<(String, Vec<NodeMetricsGrouped>)>, latest: Seq<(Seq<char>, NodeMetricsStored)>, adds: Seq<NodeMetricsEntry>) -> bool
    decreases g.len(),
{
    if g.len() == 0 {
        adds.len() == 0
    } else {
        let last = g.last();
        let n = last.1@.len();
        let init = initial_totals(latest, last.0@);
        &&& n <= adds.len()
        &&& sync_adds(g.drop_last(), latest, adds.take(adds.len() - n))
        &&& forall|k: int| 0 <= k < n ==> stored_at(by_time(last.1@), k, last.0@, init.0, init.1, #[trigger] adds[adds.len() - n + k])
    }
}

/// The nodes of groups.
pub open spec fn group_nodes(g: Seq<(String, Vec<NodeMetricsGrouped>)>) -> Seq<Seq<char>> {
    g.map_values(|x: (String, Vec<NodeMetricsGrouped>)| x.0@)
}

proof fn lemma_put_all_push(s: Seq<NodeMetricsEntry>, adds: Seq<NodeMetricsEntry>, e: NodeMetricsEntry)
    ensures
        entries_put_all(s, adds.push(e)) == entries_put(entries_put_all(s, adds), e),
{
    assert(adds.push(e).drop_last() =~= adds);
}

impl NodeMetricsStore {
    /// The time from which to fetch new metrics: just after the latest stored.
    pub fn refresh_ts(&self) -> (r: u64)
        requires
            self.wf(),
            self.nodes_metrics@.len() > 0 ==> self.nodes_metrics@.last().0.0 < u64::MAX,
        ensures
            r == if self.nodes_metrics@.len() == 0 {
                1
            } else {
                self.nodes_metrics@.last().0.0 + 1
            },
    {
        match self.latest_ts() {
            Some(t) => t + 1,
            None => 1,
        }
    }

    /// Stores the metrics reported by the subnets (each with, for each report time, the totals
    /// of its nodes): the reports are grouped by node (see [`grouped_by_node`]), and each node's
    /// entries are stored, their blocks of the day counted from the node's latest stored totals
    /// (see [`sync_adds`]).
    pub fn sync_node_metrics(&mut self, subnet_metrics: Vec<(String, Vec<(u64, Vec<NodeMetrics>)>)>)
        requires
            old(self).wf(),
        ensures
            final(self).wf(),
            exists|g: Seq<(String, Vec<NodeMetricsGrouped>)>, adds: Seq<NodeMetricsEntry>|
                groups_of(g, all_reports(subnet_metrics@)) && sync_adds(g, latest_of(old(self).nodes_metrics@, group_nodes(g)), adds)
                    && final(self).nodes_metrics@ == entries_put_all(old(self).nodes_metrics@, adds),
    {
        let ghost sm = subnet_metrics@;
        let metrics_by_node = grouped_by_node(subnet_metrics);
        let ghost g = metrics_by_node@;
        let mut principals: Vec<String> = Vec::new();
        let mut i: usize = 0;
        while i < metrics_by_node.len()
            invariant
                i <= metrics_by_node@.len(),
                principals@.map_values(|s: String| s@) == group_nodes(metrics_by_node@).take(i as int),
            decreases metrics_by_node.len() - i,
        {
            let ghost before = principals@.map_values(|s: String| s@);
            let c = metrics_by_node[i].0.clone();
            assert(c@ == group_nodes(metrics_by_node@)[i as int]);
            principals.push(c);
            assert(principals@.map_values(|s: String| s@) =~= before.push(c@));
            assert(principals@.map_values(|s: String| s@) =~= group_nodes(metrics_by_node@).take(i as int + 1));
            i = i + 1;
        }
        assert(group_nodes(metrics_by_node@).take(i as int) =~= group_nodes(metrics_by_node@));
        let latest = self.latest_metrics(&principals);
        let ghost lv = keyed(latest@);
        let ghost s0 = self.nodes_metrics@;
        assert(lv == latest_of(s0, group_nodes(g)));
        let ghost mut adds: Seq<NodeMetricsEntry> = Seq::empty();
        let mut rest = metrics_by_node;
        let ghost mut k: int = 0;
        assert(g.take(0) =~= Seq::<(String, Vec<NodeMetricsGrouped>)>::empty());
        assert(g.skip(0) =~= g);
        while rest.len() > 0
            invariant
                0 <= k <= g.len(),
                rest@ == g.skip(k),
                self.wf(),
                sync_adds(g.take(k), lv, adds),
                self.nodes_metrics@ == entries_put_all(s0, adds),
                lv == keyed(latest@),
            decreases rest.len(),
        {
            let ghost t = g.take(k + 1);
            assert(t.drop_last() =~= g.take(k));
            let (node, grouped) = rest.remove(0);
            assert(t.last() == (node, grouped));
            assert(rest@ =~= g.skip(k + 1));
            proof {
                lemma_assoc_pos_bounds(lv, node@);
                crate::registry::lemma_assoc_pos_same_keys(keyed(latest@), lv, node@);
            }
            let (p0, f0) = match find_key(&latest, node.as_str()) {
                Some(j) => (latest[j].1.num_blocks_proposed_total, latest[j].1.num_blocks_failures_total),
                None => (0, 0),
            };
            assert((p0, f0) == initial_totals(lv, node@));
            let ghost gv = grouped@;
            let storable = node_metrics_storable(node, grouped, p0, f0);
            let ghost adds0 = adds;
            let mut j: usize = 0;
            while j < storable.len()
                invariant
                    j <= storable@.len(),
                    self.wf(),
                    adds.len() == adds0.len() + j,
                    adds.take(adds0.len() as int) == adds0,
                    forall|q: int| 0 <= q < j ==> #[trigger] adds[adds0.len() + q] == storable@[q],
                    self.nodes_metrics@ == entries_put_all(s0, adds),
                decreases storable.len() - j,
            {
                let e = copy_entry(&storable[j]);
                let ghost before = adds;
                self.insert_node_metrics(e.0, e.1);
                proof {
                    lemma_put_all_push(s0, adds, storable@[j as int]);
                    adds = adds.push(storable@[j as int]);
                    assert(adds.take(adds0.len() as int) =~= before.take(adds0.len() as int));
                    assert forall|q: int| 0 <= q < j + 1 implies #[trigger] adds[adds0.len() + q] == storable@[q] by {
                        if q < j {
                            assert(adds[adds0.len() + q] == before[adds0.len() + q]);
                        }
                    }
                }
                j = j + 1;
            }
            proof {
                let n = gv.len();
                assert(adds.take(adds.len() - n) =~= adds0);
                assert(t.last().1@ == gv);
                assert forall|q: int| 0 <= q < n implies stored_at(by_time(gv), q, node@, p0, f0, #[trigger] adds[adds.len() - n + q]) by {
                    assert(adds[adds.len() - n + q] == storable@[q]);
                }
                k = k + 1;
            }
        }
        assert(g.take(k) =~= g);
    }
}

} // verus!
