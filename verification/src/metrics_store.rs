//! The stored daily reports of subnets' node metrics, and how the answer of a subnet to a request
//! for its metrics history changes them.
use vstd::prelude::*;
use crate::features::{lemma_str_le_antisymmetric, lemma_str_le_total, lemma_str_le_transitive, str_le, str_less_eq};
use crate::subnet::str_eq;
use crate::registry::{del_key, find_key, keyed, put_key};
use crate::reward_period::DayUTC;
use crate::subnet_metrics::{assoc_del, assoc_get, assoc_pos, assoc_put, daily_by_subnet, daily_view, lemma_assoc_pos_bounds, raw_view, report_key, NodeMetricsDailyRaw, NodeMetricsTotals, SubnetMetricsStored};
use crate::daily_metrics::{calculate_daily_metrics, daily};

verus! {

/// The order of report keys: by time, then by subnet.
pub open spec fn key_lt(a: (u64, Seq<char>), b: (u64, Seq<char>)) -> bool {
    a.0 < b.0 || (a.0 == b.0 && str_le(a.1, b.1) && a.1 != b.1)
}

/// The reports are in strictly ascending order of their keys (so no key occurs twice).
pub open spec fn keys_ordered(s: Seq<SubnetMetricsStored>) -> bool {
    forall|i: int, j: int| 0 <= i < j < s.len() ==> key_lt(#[trigger] report_key(s[i]), #[trigger] report_key(s[j]))
}

/// Where a report with key `k` goes among `s`, looking from `from`: before the first report
/// whose key is not smaller.
pub open spec fn put_pos(s: Seq<SubnetMetricsStored>, k: (u64, Seq<char>), from: int) -> int
    decreases s.len() - from,
{
    if from >= s.len() {
        s.len() as int
    } else if key_lt(report_key(s[from]), k) {
        put_pos(s, k, from + 1)
    } else {
        from
    }
}

/// The reports with `r` stored: in place of the report with the same key, or at its place in
/// the order.
pub open spec fn store_put(s: Seq<SubnetMetricsStored>, r: SubnetMetricsStored) -> Seq<SubnetMetricsStored> {
    let i = put_pos(s, report_key(r), 0);
    if i < s.len() && report_key(s[i]) == report_key(r) {
        s.update(i, r)
    } else {
        s.insert(i, r)
    }
}

/// The position of the first report with key `k`, or -1.
pub open spec fn get_pos(s: Seq<SubnetMetricsStored>, k: (u64, Seq<char>)) -> int
    decreases s.len(),
{
    if s.len() == 0 {
        -1
    } else if get_pos(s.drop_last(), k) >= 0 {
        get_pos(s.drop_last(), k)
    } else if report_key(s.last()) == k {
        s.len() - 1
    } else {
        -1
    }
}

/// The report with key `k`, if there is one.
pub open spec fn store_get(s: Seq<SubnetMetricsStored>, k: (u64, Seq<char>)) -> Option<SubnetMetricsStored> {
    let i = get_pos(s, k);
    if i >= 0 {
        Some(s[i])
    } else {
        None
    }
}

/// The order of report keys is transitive.
pub proof fn lemma_key_lt_transitive(a: (u64, Seq<char>), b: (u64, Seq<char>), c: (u64, Seq<char>))
    requires
        key_lt(a, b),
        key_lt(b, c),
    ensures
        key_lt(a, c),
{
    if a.0 == b.0 && b.0 == c.0 {
        lemma_str_le_transitive(a.1, b.1, c.1);
        if a.1 == c.1 {
            lemma_str_le_antisymmetric(a.1, b.1);
        }
    }
}

/// The order of report keys is strict and total.
pub proof fn lemma_key_lt_total(a: (u64, Seq<char>), b: (u64, Seq<char>))
    ensures
        key_lt(a, b) || key_lt(b, a) || a == b,
        !(key_lt(a, b) && key_lt(b, a)),
        !key_lt(a, a),
{
    lemma_str_le_total(a.1, b.1);
    if a.0 == b.0 && str_le(a.1, b.1) && str_le(b.1, a.1) {
        lemma_str_le_antisymmetric(a.1, b.1);
    }
}

proof fn lemma_put_pos(s: Seq<SubnetMetricsStored>, k: (u64, Seq<char>), from: int)
    requires
        0 <= from <= s.len(),
    ensures
        from <= put_pos(s, k, from) <= s.len(),
        forall|j: int| from <= j < put_pos(s, k, from) ==> key_lt(#[trigger] report_key(s[j]), k),
        put_pos(s, k, from) < s.len() ==> !key_lt(report_key(s[put_pos(s, k, from)]), k),
    decreases s.len() - from,
{
    if from < s.len() && key_lt(report_key(s[from]), k) {
        lemma_put_pos(s, k, from + 1);
    }
}

proof fn lemma_get_pos_bounds(s: Seq<SubnetMetricsStored>, k: (u64, Seq<char>))
    ensures
        -1 <= get_pos(s, k) < s.len(),
        get_pos(s, k) >= 0 ==> report_key(s[get_pos(s, k)]) == k,
        get_pos(s, k) == -1 ==> forall|j: int| 0 <= j < s.len() ==> #[trigger] report_key(s[j]) != k,
        forall|j: int| 0 <= j < get_pos(s, k) ==> #[trigger] report_key(s[j]) != k,
    decreases s.len(),
{
    if s.len() > 0 {
        let d = s.drop_last();
        lemma_get_pos_bounds(d, k);
        if get_pos(s, k) == -1 {
            assert forall|j: int| 0 <= j < s.len() implies #[trigger] report_key(s[j]) != k by {
                if j < s.len() - 1 {
                    assert(s[j] == d[j]);
                    assert(report_key(d[j]) != k);
                }
            }
        }
        assert forall|j: int| 0 <= j < get_pos(s, k) implies #[trigger] report_key(s[j]) != k by {
            assert(s[j] == d[j]);
            if get_pos(d, k) >= 0 {
                assert(report_key(d[j]) != k);
            } else {
                assert(report_key(d[j]) != k);
            }
        }
    }
}

/// In ordered reports, the report with a key is the only one with it.
proof fn lemma_get_pos_unique(s: Seq<SubnetMetricsStored>, k: (u64, Seq<char>), i: int)
    requires
        keys_ordered(s),
        0 <= i < s.len(),
        report_key(s[i]) == k,
    ensures
        get_pos(s, k) == i,
{
    lemma_get_pos_bounds(s, k);
    let g = get_pos(s, k);
    if g != i {
        if g >= 0 {
            if g < i {
                assert(key_lt(report_key(s[g]), report_key(s[i])));
            } else {
                assert(key_lt(report_key(s[i]), report_key(s[g])));
            }
            lemma_key_lt_total(k, k);
        }
    }
}

/// Storing a report keeps the reports ordered by key, and afterwards the report under its key is
/// the one stored, while under any other key the report is the one stored before: what a read
/// gives back of a write.
pub proof fn lemma_store_put_get(s: Seq<SubnetMetricsStored>, r: SubnetMetricsStored, k: (u64, Seq<char>))
    requires
        keys_ordered(s),
    ensures
        keys_ordered(store_put(s, r)),
        store_get(store_put(s, r), k) == if k == report_key(r) { Some(r) } else { store_get(s, k) },
{
    let kr = report_key(r);
    let i = put_pos(s, kr, 0);
    lemma_put_pos(s, kr, 0);
    let t = store_put(s, r);
    if i < s.len() && report_key(s[i]) == kr {
        assert forall|a: int, b: int| 0 <= a < b < t.len() implies key_lt(#[trigger] report_key(t[a]), #[trigger] report_key(t[b])) by {
            assert(report_key(t[a]) == report_key(s[a]));
            assert(report_key(t[b]) == report_key(s[b]));
        }
    } else {
        if i < s.len() {
            lemma_key_lt_total(report_key(s[i]), kr);
        }
        assert forall|a: int, b: int| 0 <= a < b < t.len() implies key_lt(#[trigger] report_key(t[a]), #[trigger] report_key(t[b])) by {
            if b < i {
                assert(t[a] == s[a] && t[b] == s[b]);
            } else if b == i {
                assert(t[a] == s[a] && t[b] == r);
            } else if a < i {
                assert(t[a] == s[a] && t[b] == s[b - 1]);
                assert(key_lt(report_key(s[i]), report_key(s[b - 1])) || i == b - 1);
                lemma_key_lt_transitive(report_key(s[a]), kr, report_key(s[i]));
                if i < b - 1 {
                    lemma_key_lt_transitive(report_key(s[a]), report_key(s[i]), report_key(s[b - 1]));
                }
            } else if a == i {
                assert(t[a] == r && t[b] == s[b - 1]);
                if i < b - 1 {
                    lemma_key_lt_transitive(kr, report_key(s[i]), report_key(s[b - 1]));
                }
            } else {
                assert(t[a] == s[a - 1] && t[b] == s[b - 1]);
            }
        }
    }
    lemma_get_pos_bounds(s, k);
    lemma_get_pos_bounds(t, k);
    if k == kr {
        if i < s.len() && report_key(s[i]) == kr {
            lemma_get_pos_unique(t, k, i);
        } else {
            lemma_get_pos_unique(t, k, i);
        }
    } else {
        let g = get_pos(s, k);
        if g >= 0 {
            if i < s.len() && report_key(s[i]) == kr {
                assert(g != i);
                assert(t[g] == s[g]);
                lemma_get_pos_unique(t, k, g);
            } else if g < i {
                assert(t[g] == s[g]);
                lemma_get_pos_unique(t, k, g);
            } else {
                assert(t[g + 1] == s[g]);
                lemma_get_pos_unique(t, k, g + 1);
            }
        } else {
            assert forall|j: int| 0 <= j < t.len() implies #[trigger] report_key(t[j]) != k by {
                if i < s.len() && report_key(s[i]) == kr {
                    if j != i {
                        assert(t[j] == s[j]);
                    }
                } else if j < i {
                    assert(t[j] == s[j]);
                } else if j > i {
                    assert(t[j] == s[j - 1]);
                }
            }
            let tg = get_pos(t, k);
            if tg >= 0 {
                assert(report_key(t[tg]) == k);
            }
        }
    }
}

/// A stored report as plain values: its time, its subnet and its nodes' daily metrics.
pub type ReportView = (u64, Seq<char>, Seq<(Seq<char>, u64, u64)>);

/// The view of a stored report.
pub open spec fn report_view(r: SubnetMetricsStored) -> ReportView {
    (r.ts, r.subnet_id@, raw_view(r.nodes_metrics@))
}

/// The view of the stored reports.
pub open spec fn stored_view(s: Seq<SubnetMetricsStored>) -> Seq<ReportView> {
    s.map_values(|r: SubnetMetricsStored| report_view(r))
}

/// Where a report with key `k` goes among the reports `s`, looking from `from` (as [`put_pos`]).
pub open spec fn view_pos(s: Seq<ReportView>, k: (u64, Seq<char>), from: int) -> int
    decreases s.len() - from,
{
    if from >= s.len() {
        s.len() as int
    } else if key_lt((s[from].0, s[from].1), k) {
        view_pos(s, k, from + 1)
    } else {
        from
    }
}

/// The reports with report `v` stored (as [`store_put`]).
pub open spec fn view_put(s: Seq<ReportView>, v: ReportView) -> Seq<ReportView> {
    let i = view_pos(s, (v.0, v.1), 0);
    if i < s.len() && (s[i].0, s[i].1) == (v.0, v.1) {
        s.update(i, v)
    } else {
        s.insert(i, v)
    }
}

/// The reports with the daily reports `d` of subnet `subnet` stored, in order.
pub open spec fn views_put(s: Seq<ReportView>, subnet: Seq<char>, d: Seq<(u64, Seq<(Seq<char>, u64, u64)>)>) -> Seq<ReportView>
    decreases d.len(),
{
    if d.len() == 0 {
        s
    } else {
        view_put(views_put(s, subnet, d.drop_last()), (d.last().0, subnet, d.last().1))
    }
}

proof fn lemma_view_pos(s: Seq<SubnetMetricsStored>, k: (u64, Seq<char>), from: int)
    requires
        0 <= from,
    ensures
        put_pos(s, k, from) == view_pos(stored_view(s), k, from),
    decreases s.len() - from,
{
    if from < s.len() {
        lemma_view_pos(s, k, from + 1);
    }
}

/// Storing a report and taking the views commute.
proof fn lemma_store_put_view(s: Seq<SubnetMetricsStored>, r: SubnetMetricsStored)
    ensures
        stored_view(store_put(s, r)) == view_put(stored_view(s), report_view(r)),
{
    lemma_view_pos(s, report_key(r), 0);
    lemma_put_pos(s, report_key(r), 0);
    let i = put_pos(s, report_key(r), 0);
    if i < s.len() && report_key(s[i]) == report_key(r) {
        assert(stored_view(s.update(i, r)) =~= stored_view(s).update(i, report_view(r)));
    } else {
        assert(stored_view(s.insert(i, r)) =~= stored_view(s).insert(i, report_view(r)));
    }
}

/// The totals of node `node` in the nodes' totals `nodes`: those of its last entry, or zero.
pub open spec fn totals_of_node(nodes: Seq<NodeMetricsTotals>, node: Seq<char>) -> (u64, u64)
    decreases nodes.len(),
{
    if nodes.len() == 0 {
        (0, 0)
    } else if nodes.last().node_id@ == node {
        (nodes.last().num_blocks_proposed_total, nodes.last().num_blocks_failed_total)
    } else {
        totals_of_node(nodes.drop_last(), node)
    }
}

/// The daily metrics of the nodes' totals `nodes`, against their totals `prev` in the report
/// before (see [`daily`]: a node whose totals went down was redeployed and counts in full).
pub open spec fn report_daily(prev: Seq<NodeMetricsTotals>, nodes: Seq<NodeMetricsTotals>) -> Seq<(Seq<char>, u64, u64)> {
    nodes.map_values(
        |n: NodeMetricsTotals|
            {
                let last = totals_of_node(prev, n.node_id@);
                let d = daily(last.0, last.1, n.num_blocks_proposed_total, n.num_blocks_failed_total);
                (n.node_id@, d.0, d.1)
            },
    )
}

/// How many reports at the head of an answer `u` of subnet `subnet` only give the totals the
/// next report is counted against: the first one when it is at the subnet's last time `lts`.
pub open spec fn baseline_len(lts: Seq<(Seq<char>, u64)>, subnet: Seq<char>, u: Seq<(u64, Vec<NodeMetricsTotals>)>) -> int {
    if u.len() > 0 && assoc_pos(lts, subnet) >= 0 && u[0].0 == assoc_get(lts, subnet, 0u64) {
        1
    } else {
        0
    }
}

/// The daily reports of an answer `u` whose first `b` reports only give totals: each report
/// after them, with its nodes' daily metrics against the report before it (none for the first
/// report of the answer).
pub open spec fn answer_daily(u: Seq<(u64, Vec<NodeMetricsTotals>)>, b: int) -> Seq<(u64, Seq<(Seq<char>, u64, u64)>)> {
    Seq::new(
        (u.len() - b) as nat,
        |i: int| (u[i + b].0, report_daily(if i + b == 0 { Seq::empty() } else { u[i + b - 1].1@ }, u[i + b].1@)),
    )
}

/// The stored daily reports of subnets' node metrics (in ascending order of time, then subnet),
/// how many times in a row the request of each subnet failed, and the time of the last report of
/// each subnet.
pub struct MetricsManager {
    pub subnets_metrics: Vec<SubnetMetricsStored>,
    pub subnets_to_retry: Vec<(String, u64)>,
    pub last_timestamp_per_subnet: Vec<(String, u64)>,
}

/// The answer of a subnet to a request for its metrics history: the reports of its nodes' running
/// totals from the requested time on, each with its time, or the error of the call.
pub type SubnetUpdate = Result<Vec<(u64, Vec<NodeMetricsTotals>)>, String>;

/// The subnets without repeats, in the order of their first occurrence.
pub open spec fn first_occurrences(s: Seq<Seq<char>>) -> Seq<Seq<char>>
    decreases s.len(),
{
    if s.len() == 0 {
        Seq::empty()
    } else {
        let o = first_occurrences(s.drop_last());
        if o.contains(s.last()) {
            o
        } else {
            o.push(s.last())
        }
    }
}

impl MetricsManager {
    /// The reports are in order.
    pub open spec fn wf(&self) -> bool {
        keys_ordered(self.subnets_metrics@)
    }

    /// Nothing stored.
    pub fn new() -> (r: Self)
        ensures
            r.wf(),
            r.subnets_metrics@ == Seq::<SubnetMetricsStored>::empty(),
            r.subnets_to_retry@ == Seq::<(String, u64)>::empty(),
            r.last_timestamp_per_subnet@ == Seq::<(String, u64)>::empty(),
    {
        MetricsManager { subnets_metrics: Vec::new(), subnets_to_retry: Vec::new(), last_timestamp_per_subnet: Vec::new() }
    }

    /// What to request of each subnet: the subnets without repeats, each with the time of its
    /// last stored report (0 when there is none), from which its history is requested.
    pub fn fetch_requests(&self, subnets: &Vec<String>) -> (r: Vec<(String, u64)>)
        ensures
            r@.len() == first_occurrences(subnets@.map_values(|s: String| s@)).len(),
            forall|i: int|
                0 <= i < r@.len() ==> (#[trigger] r@[i]).0@ == first_occurrences(subnets@.map_values(|s: String| s@))[i] && r@[i].1
                    == assoc_get(keyed(self.last_timestamp_per_subnet@), r@[i].0@, 0u64),
    {
        let ghost sv = subnets@.map_values(|s: String| s@);
        let mut r: Vec<(String, u64)> = Vec::new();
        let mut i: usize = 0;
        assert(sv.take(0) =~= Seq::<Seq<char>>::empty());
        while i < subnets.len()
            invariant
                i <= subnets@.len(),
                sv == subnets@.map_values(|s: String| s@),
                r@.len() == first_occurrences(sv.take(i as int)).len(),
                forall|j: int|
                    0 <= j < r@.len() ==> (#[trigger] r@[j]).0@ == first_occurrences(sv.take(i as int))[j] && r@[j].1
                        == assoc_get(keyed(self.last_timestamp_per_subnet@), r@[j].0@, 0u64),
            decreases subnets.len() - i,
        {
            let ghost t = sv.take(i as int + 1);
            assert(t.drop_last() =~= sv.take(i as int));
            assert(t.last() == subnets@[i as int]@);
            let ghost o = first_occurrences(sv.take(i as int));
            let mut seen = false;
            let mut j: usize = 0;
            while j < r.len()
                invariant
                    j <= r@.len(),
                    i < subnets@.len(),
                    r@.len() == o.len(),
                    forall|k: int| 0 <= k < r@.len() ==> (#[trigger] r@[k]).0@ == o[k],
                    seen <==> exists|k: int| 0 <= k < j && #[trigger] o[k] == subnets@[i as int]@,
                decreases r.len() - j,
            {
                if str_eq(r[j].0.as_str(), subnets[i].as_str()) {
                    seen = true;
                }
                j = j + 1;
            }
            if !seen {
                let ts = match find_key(&self.last_timestamp_per_subnet, subnets[i].as_str()) {
                    Some(k) => self.last_timestamp_per_subnet[k].1,
                    None => 0,
                };
                proof {
                    lemma_assoc_pos_bounds(keyed(self.last_timestamp_per_subnet@), subnets@[i as int]@);
                }
                r.push((subnets[i].clone(), ts));
                assert(!o.contains(subnets@[i as int]@));
            } else {
                assert(o.contains(subnets@[i as int]@));
            }
            i = i + 1;
        }
        assert(sv.take(subnets@.len() as int) =~= sv);
        r
    }
}

fn key_less(a: &SubnetMetricsStored, ts: u64, subnet: &str) -> (r: bool)
    ensures
        r == key_lt(report_key(*a), (ts, subnet@)),
{
    a.ts < ts || (a.ts == ts && str_less_eq(a.subnet_id.as_str(), subnet) && !str_eq(a.subnet_id.as_str(), subnet))
}

/// Stores report `r` among the ordered reports `s` (see [`store_put`]).
fn store_report(s: &mut Vec<SubnetMetricsStored>, r: SubnetMetricsStored)
    requires
        keys_ordered(old(s)@),
    ensures
        final(s)@ == store_put(old(s)@, r),
        keys_ordered(final(s)@),
{
    proof {
        lemma_store_put_get(s@, r, report_key(r));
        lemma_put_pos(s@, report_key(r), 0);
    }
    let mut i: usize = 0;
    while i < s.len() && key_less(&s[i], r.ts, r.subnet_id.as_str())
        invariant
            i <= s@.len(),
            put_pos(s@, report_key(r), 0) == put_pos(s@, report_key(r), i as int),
        decreases s.len() - i,
    {
        i = i + 1;
    }
    if i < s.len() && s[i].ts == r.ts && str_eq(s[i].subnet_id.as_str(), r.subnet_id.as_str()) {
        s.set(i, r);
    } else {
        s.insert(i, r);
    }
}

/// The totals of node `node` among `nodes` (see [`totals_of_node`]).
fn node_totals(nodes: &Vec<NodeMetricsTotals>, node: &str) -> (r: (u64, u64))
    ensures
        r == totals_of_node(nodes@, node@),
{
    let mut r: (u64, u64) = (0, 0);
    let mut i: usize = 0;
    assert(nodes@.take(0) =~= Seq::<NodeMetricsTotals>::empty());
    while i < nodes.len()
        invariant
            i <= nodes@.len(),
            r == totals_of_node(nodes@.take(i as int), node@),
        decreases nodes.len() - i,
    {
        assert(nodes@.take(i as int + 1).drop_last() =~= nodes@.take(i as int));
        if str_eq(nodes[i].node_id.as_str(), node) {
            r = (nodes[i].num_blocks_proposed_total, nodes[i].num_blocks_failed_total);
        }
        i = i + 1;
    }
    assert(nodes@.take(nodes@.len() as int) =~= nodes@);
    r
}

/// The daily metrics of the nodes' totals `nodes` against the totals `prev` of the report before
/// (see [`report_daily`]).
fn nodes_daily(prev: &Vec<NodeMetricsTotals>, nodes: &Vec<NodeMetricsTotals>) -> (r: Vec<NodeMetricsDailyRaw>)
    ensures
        raw_view(r@) == report_daily(prev@, nodes@),
{
    let mut r: Vec<NodeMetricsDailyRaw> = Vec::new();
    let mut i: usize = 0;
    while i < nodes.len()
        invariant
            i <= nodes@.len(),
            raw_view(r@) == report_daily(prev@, nodes@.take(i as int)),
        decreases nodes.len() - i,
    {
        let n = &nodes[i];
        let last = node_totals(prev, n.node_id.as_str());
        let d = calculate_daily_metrics(last.0, last.1, n.num_blocks_proposed_total, n.num_blocks_failed_total);
        let ghost before = r@;
        r.push(NodeMetricsDailyRaw { node_id: n.node_id.clone(), num_blocks_proposed: d.0, num_blocks_failed: d.1 });
        assert(raw_view(r@) =~= raw_view(before).push((n.node_id@, d.0, d.1)));
        assert(nodes@.take(i as int + 1) =~= nodes@.take(i as int).push(nodes@[i as int]));
        assert(report_daily(prev@, nodes@.take(i as int + 1)) =~= report_daily(prev@, nodes@.take(i as int)).push((n.node_id@, d.0, d.1)));
        i = i + 1;
    }
    assert(nodes@.take(nodes@.len() as int) =~= nodes@);
    r
}

impl MetricsManager {
    /// Takes the answer of subnet `subnet_id` to the request for its metrics history (from the
    /// time of its last stored report on). The answer's reports give the nodes' running totals;
    /// what is stored is each node's daily metrics: its totals less its totals in the report
    /// before, or its totals in full when there is none or they went down (the node was
    /// redeployed). A first report at the subnet's last time was stored before and only gives
    /// the totals the next one is counted against. Each daily report is stored under its time
    /// and the subnet, in place of a report stored under the same key (see [`answer_daily`]);
    /// the time of the last report becomes the subnet's last time; and the subnet leaves the
    /// subnets to retry. An answer without reports leaves the reports and the last time as they
    /// were. A failed call counts one more failure for the subnet, which is then to be retried.
    pub fn update_subnet(&mut self, subnet_id: String, update: SubnetUpdate)
        requires
            old(self).wf(),
            update is Err ==> assoc_get(keyed(old(self).subnets_to_retry@), subnet_id@, 0u64) < u64::MAX,
        ensures
            final(self).wf(),
            match update {
                Ok(u) => {
                    &&& stored_view(final(self).subnets_metrics@) == views_put(
                        stored_view(old(self).subnets_metrics@),
                        subnet_id@,
                        answer_daily(u@, baseline_len(keyed(old(self).last_timestamp_per_subnet@), subnet_id@, u@)),
                    )
                    &&& keyed(final(self).last_timestamp_per_subnet@) == if u@.len() == 0 {
                        keyed(old(self).last_timestamp_per_subnet@)
                    } else {
                        assoc_put(keyed(old(self).last_timestamp_per_subnet@), subnet_id@, u@.last().0)
                    }
                    &&& keyed(final(self).subnets_to_retry@) == assoc_del(keyed(old(self).subnets_to_retry@), subnet_id@)
                },
                Err(_) => {
                    &&& final(self).subnets_metrics@ == old(self).subnets_metrics@
                    &&& final(self).last_timestamp_per_subnet@ == old(self).last_timestamp_per_subnet@
                    &&& keyed(final(self).subnets_to_retry@) == assoc_put(
                        keyed(old(self).subnets_to_retry@),
                        subnet_id@,
                        (assoc_get(keyed(old(self).subnets_to_retry@), subnet_id@, 0u64) + 1) as u64,
                    )
                },
            },
    {
        proof {
            lemma_assoc_pos_bounds(keyed(self.subnets_to_retry@), subnet_id@);
            lemma_assoc_pos_bounds(keyed(self.last_timestamp_per_subnet@), subnet_id@);
        }
        match update {
            Ok(u) => {
                let ghost uv = u@;
                let ghost b0 = baseline_len(keyed(self.last_timestamp_per_subnet@), subnet_id@, uv);
                let mut b: usize = 0;
                if u.len() > 0 {
                    match find_key(&self.last_timestamp_per_subnet, subnet_id.as_str()) {
                        Some(k) => {
                            if self.last_timestamp_per_subnet[k].1 == u[0].0 {
                                b = 1;
                            }
                        },
                        None => {},
                    }
                    let last = u[u.len() - 1].0;
                    put_key(&mut self.last_timestamp_per_subnet, subnet_id.clone(), last);
                }
                assert(b as int == b0);
                let ghost dv = answer_daily(uv, b0);
                let ghost s0 = stored_view(self.subnets_metrics@);
                let ghost lt = self.last_timestamp_per_subnet@;
                let ghost rt = self.subnets_to_retry@;
                let empty: Vec<NodeMetricsTotals> = Vec::new();
                let mut i: usize = b;
                assert(dv.take(0) =~= Seq::<(u64, Seq<(Seq<char>, u64, u64)>)>::empty());
                while i < u.len()
                    invariant
                        b <= i <= uv.len(),
                        b as int == b0,
                        u@ == uv,
                        empty@.len() == 0,
                        dv == answer_daily(uv, b0),
                        keys_ordered(self.subnets_metrics@),
                        stored_view(self.subnets_metrics@) == views_put(s0, subnet_id@, dv.take(i - b)),
                        self.last_timestamp_per_subnet@ == lt,
                        self.subnets_to_retry@ == rt,
                    decreases u.len() - i,
                {
                    let prev = if i == 0 {
                        &empty
                    } else {
                        &u[i - 1].1
                    };
                    let raws = nodes_daily(prev, &u[i].1);
                    assert(prev@ == if i == 0 { Seq::<NodeMetricsTotals>::empty() } else { uv[i - 1].1@ });
                    let r = SubnetMetricsStored { ts: u[i].0, subnet_id: subnet_id.clone(), nodes_metrics: raws };
                    let ghost before = self.subnets_metrics@;
                    store_report(&mut self.subnets_metrics, r);
                    proof {
                        lemma_store_put_view(before, r);
                        let t = dv.take(i - b + 1);
                        assert(t.drop_last() =~= dv.take(i - b));
                        assert(t.last() == dv[i - b]);
                        assert(report_view(r) == (t.last().0, subnet_id@, t.last().1));
                    }
                    i = i + 1;
                }
                assert(dv.take(i - b) =~= dv);
                del_key(&mut self.subnets_to_retry, subnet_id.as_str());
            },
            Err(_) => {
                let count = match find_key(&self.subnets_to_retry, subnet_id.as_str()) {
                    Some(i) => self.subnets_to_retry[i].1,
                    None => 0,
                };
                put_key(&mut self.subnets_to_retry, subnet_id, count + 1);
            },
        }
    }

    /// The subnets whose last request failed, to be requested again.
    pub fn subnets_to_retry_ids(&self) -> (r: Vec<String>)
        ensures
            r@.map_values(|s: String| s@) == keyed(self.subnets_to_retry@).map_values(|p: (Seq<char>, u64)| p.0),
    {
        let mut r: Vec<String> = Vec::new();
        let mut i: usize = 0;
        while i < self.subnets_to_retry.len()
            invariant
                i <= self.subnets_to_retry@.len(),
                r@.map_values(|s: String| s@) == keyed(self.subnets_to_retry@).map_values(|p: (Seq<char>, u64)| p.0).take(i as int),
            decreases self.subnets_to_retry.len() - i,
        {
            let ghost before = r@.map_values(|s: String| s@);
            let c = self.subnets_to_retry[i].0.clone();
            assert(c@ == keyed(self.subnets_to_retry@)[i as int].0);
            r.push(c);
            assert(r@.map_values(|s: String| s@) =~= before.push(c@));
            assert(r@.map_values(|s: String| s@) =~= keyed(self.subnets_to_retry@).map_values(|p: (Seq<char>, u64)| p.0).take(i as int + 1));
            i = i + 1;
        }
        assert(keyed(self.subnets_to_retry@).map_values(|p: (Seq<char>, u64)| p.0).take(i as int) =~= keyed(self.subnets_to_retry@).map_values(
            |p: (Seq<char>, u64)| p.0,
        ));
        r
    }

    /// How many times in a row the request of `subnet_id` failed, if it is to be retried.
    pub fn retry_count(&self, subnet_id: &str) -> (r: Option<u64>)
        ensures
            r == if assoc_pos(keyed(self.subnets_to_retry@), subnet_id@) >= 0 {
                Some(assoc_get(keyed(self.subnets_to_retry@), subnet_id@, 0u64))
            } else {
                None::<u64>
            },
    {
        match find_key(&self.subnets_to_retry, subnet_id) {
            Some(i) => Some(self.subnets_to_retry[i].1),
            None => None,
        }
    }

    /// The nodes' daily metrics of the report of `subnet_id` at time `ts`, if one is stored.
    pub fn metrics_at(&self, ts: u64, subnet_id: &str) -> (r: Option<&Vec<NodeMetricsDailyRaw>>)
        requires
            self.wf(),
        ensures
            match store_get(self.subnets_metrics@, (ts, subnet_id@)) {
                Some(x) => r == Some(&x.nodes_metrics),
                None => r is None,
            },
    {
        proof {
            lemma_get_pos_bounds(self.subnets_metrics@, (ts, subnet_id@));
        }
        let mut i: usize = 0;
        while i < self.subnets_metrics.len()
            invariant
                i <= self.subnets_metrics@.len(),
                keys_ordered(self.subnets_metrics@),
                forall|j: int| 0 <= j < i ==> #[trigger] report_key(self.subnets_metrics@[j]) != (ts, subnet_id@),
            decreases self.subnets_metrics.len() - i,
        {
            if self.subnets_metrics[i].ts == ts && str_eq(self.subnets_metrics[i].subnet_id.as_str(), subnet_id) {
                proof {
                    lemma_get_pos_unique(self.subnets_metrics@, (ts, subnet_id@), i as int);
                }
                return Some(&self.subnets_metrics[i].nodes_metrics);
            }
            i = i + 1;
        }
        None
    }

    /// The daily metrics of each subnet's nodes for the days from `from` to `to`, from the
    /// stored reports (see [`crate::subnet_metrics::daily_metrics_by_subnet`]).
    pub fn daily_metrics_by_subnet(&self, from: DayUTC, to: DayUTC) -> (r: Vec<((String, DayUTC), Vec<NodeMetricsDailyRaw>)>)
        requires
            crate::reward_period::aligned_in_range(to.0.0 as int),
        ensures
            daily_view(r@) == daily_by_subnet(self.subnets_metrics@, from, to),
    {
        crate::subnet_metrics::daily_metrics_by_subnet(&self.subnets_metrics, from, to)
    }
}

} // verus!
