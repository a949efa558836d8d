//! Daily node metrics from the running totals that subnets report: blocks proposed and blocks
//! failed by each node each day.
use vstd::prelude::*;

verus! {

/// The running totals of one node, as a subnet reports them.
#[derive(Debug, Clone, PartialEq, Eq)]
pub struct NodeMetrics {
    pub node_id: String,
    pub num_blocks_proposed_total: u64,
    pub num_block_failures_total: u64,
}

/// What is stored for a node on a day: the subnet it was assigned to, its running totals, and
/// its blocks proposed and failed that day.
#[derive(Debug, Clone, PartialEq, Eq)]
pub struct NodeMetricsStored {
    pub subnet_assigned: String,
    pub num_blocks_proposed_total: u64,
    pub num_blocks_failures_total: u64,
    pub num_blocks_proposed: u64,
    pub num_blocks_failed: u64,
}

/// A report for one node: when, from which subnet, and its running totals.
pub type NodeMetricsGrouped = (u64, String, NodeMetrics);

/// The blocks proposed and failed since the totals `last_*`, given the totals `current_*`; when a
/// total went down (the node was redeployed) the current totals count in full.
pub open spec fn daily(last_proposed: u64, last_failed: u64, current_proposed: u64, current_failed: u64) -> (u64, u64) {
    if last_failed > current_failed || last_proposed > current_proposed {
        (current_proposed, current_failed)
    } else {
        ((current_proposed - last_proposed) as u64, (current_failed - last_failed) as u64)
    }
}

/// The blocks proposed and failed since the last totals (see [`daily`]).
pub fn calculate_daily_metrics(
    last_proposed_total: u64,
    last_failed_total: u64,
    current_proposed_total: u64,
    current_failed_total: u64,
) -> (r: (u64, u64))
    ensures
        r == daily(last_proposed_total, last_failed_total, current_proposed_total, current_failed_total),
{
    if last_failed_total > current_failed_total || last_proposed_total > current_proposed_total {
        (current_proposed_total, current_failed_total)
    } else {
        (current_proposed_total - last_proposed_total, current_failed_total - last_failed_total)
    }
}

/// The reports ordered by time, keeping the order of reports at the same time (a stable
/// insertion sort).
pub open spec fn by_time(s: Seq<NodeMetricsGrouped>) -> Seq<NodeMetricsGrouped>
    decreases s.len(),
{
    if s.len() == 0 {
        Seq::empty()
    } else {
        let o = by_time(s.drop_last());
        o.insert(time_pos(o, s.last().0, o.len() as int), s.last())
    }
}

/// Where a report at time `ts` goes among `o`, looking backwards from `pos`: after the last
/// report that is not later.
pub open spec fn time_pos(o: Seq<NodeMetricsGrouped>, ts: u64, pos: int) -> int
    decreases pos,
{
    if pos <= 0 {
        0
    } else if o[pos - 1].0 > ts {
        time_pos(o, ts, pos - 1)
    } else {
        pos
    }
}

proof fn lemma_time_pos_bounds(o: Seq<NodeMetricsGrouped>, ts: u64, pos: int)
    requires
        0 <= pos <= o.len(),
    ensures
        0 <= time_pos(o, ts, pos) <= pos,
    decreases pos,
{
    if pos > 0 {
        lemma_time_pos_bounds(o, ts, pos - 1);
    }
}

proof fn lemma_by_time_len(s: Seq<NodeMetricsGrouped>)
    ensures
        by_time(s).len() == s.len(),
    decreases s.len(),
{
    if s.len() > 0 {
        lemma_by_time_len(s.drop_last());
        let o = by_time(s.drop_last());
        lemma_time_pos_bounds(o, s.last().0, o.len() as int);
    }
}

/// The reports ordered by time (see [`by_time`]).
pub fn sort_by_time(reports: Vec<NodeMetricsGrouped>) -> (r: Vec<NodeMetricsGrouped>)
    ensures
        r@ == by_time(reports@),
{
    let ghost orig = reports@;
    let mut rest = reports;
    let mut out: Vec<NodeMetricsGrouped> = Vec::new();
    let ghost mut i: int = 0;
    assert(orig.skip(0) =~= orig);
    assert(orig.take(0) =~= Seq::<NodeMetricsGrouped>::empty());
    while rest.len() > 0
        invariant
            0 <= i <= orig.len(),
            rest@ == orig.skip(i),
            out@ == by_time(orig.take(i)),
            out@.len() == i,
        decreases rest.len(),
    {
        let ghost t = orig.take(i + 1);
        assert(t.drop_last() =~= orig.take(i));
        assert(t.last() == orig[i]);
        let x = rest.remove(0);
        assert(x == orig[i]);
        assert(rest@ =~= orig.skip(i + 1));
        let mut pos = out.len();
        while pos > 0 && out[pos - 1].0 > x.0
            invariant
                pos <= out@.len(),
                time_pos(out@, x.0, out@.len() as int) == time_pos(out@, x.0, pos as int),
            decreases pos,
        {
            pos = pos - 1;
        }
        proof {
            lemma_time_pos_bounds(out@, x.0, out@.len() as int);
            lemma_by_time_len(t);
        }
        out.insert(pos, x);
        proof {
            i = i + 1;
        }
    }
    assert(orig.take(i) =~= orig);
    out
}

/// The running totals before report `k` of `s`: those of the report before it, or the initial
/// totals for the first.
pub open spec fn totals_before(s: Seq<NodeMetricsGrouped>, k: int, proposed: u64, failed: u64) -> (u64, u64) {
    if k == 0 {
        (proposed, failed)
    } else {
        (s[k - 1].2.num_blocks_proposed_total, s[k - 1].2.num_block_failures_total)
    }
}

/// What is stored for report `k` of the ordered reports `s` of node `node_id`.
pub open spec fn stored_at(s: Seq<NodeMetricsGrouped>, k: int, node_id: Seq<char>, proposed: u64, failed: u64, e: ((u64, String), NodeMetricsStored)) -> bool {
    let m = s[k].2;
    let before = totals_before(s, k, proposed, failed);
    let d = daily(before.0, before.1, m.num_blocks_proposed_total, m.num_block_failures_total);
    &&& e.0.0 == s[k].0
    &&& e.0.1@ == node_id
    &&& e.1.subnet_assigned@ == s[k].1@
    &&& e.1.num_blocks_proposed_total == m.num_blocks_proposed_total
    &&& e.1.num_blocks_failures_total == m.num_block_failures_total
    &&& e.1.num_blocks_proposed == d.0
    &&& e.1.num_blocks_failed == d.1
}

/// What to store for each report of node `node_id`, in order of time: its running totals and its
/// blocks of the day (see [`daily`]), the first against the totals `initial_*`.
pub fn node_metrics_storable(
    node_id: String,
    node_metrics_grouped: Vec<NodeMetricsGrouped>,
    initial_proposed_total: u64,
    initial_failed_total: u64,
) -> (r: Vec<((u64, String), NodeMetricsStored)>)
    ensures
        r@.len() == node_metrics_grouped@.len(),
        forall|k: int|
            0 <= k < r@.len() ==> stored_at(
                by_time(node_metrics_grouped@),
                k,
                node_id@,
                initial_proposed_total,
                initial_failed_total,
                #[trigger] r@[k],
            ),
{
    let ordered = sort_by_time(node_metrics_grouped);
    proof {
        lemma_by_time_len(node_metrics_grouped@);
    }
    let mut out: Vec<((u64, String), NodeMetricsStored)> = Vec::new();
    let mut previous_proposed = initial_proposed_total;
    let mut previous_failed = initial_failed_total;
    let mut k: usize = 0;
    while k < ordered.len()
        invariant
            k <= ordered@.len(),
            out@.len() == k,
            (previous_proposed, previous_failed) == totals_before(ordered@, k as int, initial_proposed_total, initial_failed_total),
            forall|j: int|
                0 <= j < k ==> stored_at(ordered@, j, node_id@, initial_proposed_total, initial_failed_total, #[trigger] out@[j]),
        decreases ordered.len() - k,
    {
        let m = &ordered[k].2;
        let (daily_proposed, daily_failed) = calculate_daily_metrics(
            previous_proposed,
            previous_failed,
            m.num_blocks_proposed_total,
            m.num_block_failures_total,
        );
        let stored = NodeMetricsStored {
            subnet_assigned: ordered[k].1.clone(),
            num_blocks_proposed_total: m.num_blocks_proposed_total,
            num_blocks_failures_total: m.num_block_failures_total,
            num_blocks_proposed: daily_proposed,
            num_blocks_failed: daily_failed,
        };
        let ghost before = out@;
        out.push(((ordered[k].0, node_id.clone()), stored));
        assert forall|j: int| 0 <= j < k + 1 implies stored_at(
            ordered@,
            j,
            node_id@,
            initial_proposed_total,
            initial_failed_total,
            #[trigger] out@[j],
        ) by {
            if j < k {
                assert(out@[j] == before[j]);
            }
        }
        previous_proposed = m.num_blocks_proposed_total;
        previous_failed = m.num_block_failures_total;
        k = k + 1;
    }
    out
}

/// The view of a node's running totals: its principal and its totals.
pub open spec fn metrics_view(m: NodeMetrics) -> (Seq<char>, u64, u64) {
    (m.node_id@, m.num_blocks_proposed_total, m.num_block_failures_total)
}

/// The view of a report: its time, its subnet and the node's totals.
pub open spec fn report_view(r: NodeMetricsGrouped) -> (u64, Seq<char>, (Seq<char>, u64, u64)) {
    (r.0, r.1@, metrics_view(r.2))
}

/// The reports of the nodes `nodes`, made by subnet `sid` at time `ts`.
pub open spec fn node_reports(sid: Seq<char>, ts: u64, nodes: Seq<NodeMetrics>) -> Seq<(u64, Seq<char>, (Seq<char>, u64, u64))> {
    nodes.map_values(|m: NodeMetrics| (ts, sid, metrics_view(m)))
}

/// The reports of subnet `sid` over its history, in order.
pub open spec fn history_reports(sid: Seq<char>, hist: Seq<(u64, Vec<NodeMetrics>)>) -> Seq<(u64, Seq<char>, (Seq<char>, u64, u64))>
    decreases hist.len(),
{
    if hist.len() == 0 {
        Seq::empty()
    } else {
        history_reports(sid, hist.drop_last()) + node_reports(sid, hist.last().0, hist.last().1@)
    }
}

/// The reports of all subnets, subnet after subnet.
pub open spec fn all_reports(sm: Seq<(String, Vec<(u64, Vec<NodeMetrics>)>)>) -> Seq<(u64, Seq<char>, (Seq<char>, u64, u64))>
    decreases sm.len(),
{
    if sm.len() == 0 {
        Seq::empty()
    } else {
        all_reports(sm.drop_last()) + history_reports(sm.last().0@, sm.last().1@)
    }
}

/// The nodes reported, each once, in the order of their first report.
pub open spec fn reported_nodes(p: Seq<(u64, Seq<char>, (Seq<char>, u64, u64))>) -> Seq<Seq<char>>
    decreases p.len(),
{
    if p.len() == 0 {
        Seq::empty()
    } else {
        let d = reported_nodes(p.drop_last());
        if d.contains(p.last().2.0) {
            d
        } else {
            d.push(p.last().2.0)
        }
    }
}

/// The reports about node `x`, in order.
pub open spec fn reports_about(p: Seq<(u64, Seq<char>, (Seq<char>, u64, u64))>, x: Seq<char>) -> Seq<(u64, Seq<char>, (Seq<char>, u64, u64))>
    decreases p.len(),
{
    if p.len() == 0 {
        Seq::empty()
    } else {
        let r = reports_about(p.drop_last(), x);
        if p.last().2.0 == x {
            r.push(p.last())
        } else {
            r
        }
    }
}

fn copy_metrics(m: &NodeMetrics) -> (r: NodeMetrics)
    ensures
        metrics_view(r) == metrics_view(*m),
{
    NodeMetrics {
        node_id: m.node_id.clone(),
        num_blocks_proposed_total: m.num_blocks_proposed_total,
        num_block_failures_total: m.num_block_failures_total,
    }
}

/// The reports of all subnets, in order (see [`all_reports`]).
fn flatten_reports(sm: &Vec<(String, Vec<(u64, Vec<NodeMetrics>)>)>) -> (r: Vec<NodeMetricsGrouped>)
    ensures
        r@.map_values(|x: NodeMetricsGrouped| report_view(x)) == all_reports(sm@),
{
    let mut out: Vec<NodeMetricsGrouped> = Vec::new();
    let mut s: usize = 0;
    assert(out@.map_values(|x: NodeMetricsGrouped| report_view(x)) =~= all_reports(sm@.take(0)));
    while s < sm.len()
        invariant
            s <= sm@.len(),
            out@.map_values(|x: NodeMetricsGrouped| report_view(x)) == all_reports(sm@.take(s as int)),
        decreases sm.len() - s,
    {
        let ghost base = all_reports(sm@.take(s as int));
        let sid = &sm[s].0;
        let hist = &sm[s].1;
        let mut h: usize = 0;
        assert(base + history_reports(sid@, hist@.take(0)) =~= base);
        while h < hist.len()
            invariant
                h <= hist@.len(),
                out@.map_values(|x: NodeMetricsGrouped| report_view(x)) == base + history_reports(sid@, hist@.take(h as int)),
            decreases hist.len() - h,
        {
            let ghost base2 = base + history_reports(sid@, hist@.take(h as int));
            let ts = hist[h].0;
            let nodes = &hist[h].1;
            let mut n: usize = 0;
            assert(base2 + node_reports(sid@, ts, nodes@.take(0)) =~= base2);
            while n < nodes.len()
                invariant
                    n <= nodes@.len(),
                    out@.map_values(|x: NodeMetricsGrouped| report_view(x)) == base2 + node_reports(sid@, ts, nodes@.take(n as int)),
                decreases nodes.len() - n,
            {
                let ghost before = out@;
                out.push((ts, sid.clone(), copy_metrics(&nodes[n])));
                assert(out@.map_values(|x: NodeMetricsGrouped| report_view(x)) =~= before.map_values(|x: NodeMetricsGrouped| report_view(x)).push(
                    (ts, sid@, metrics_view(nodes@[n as int])),
                ));
                assert(node_reports(sid@, ts, nodes@.take(n as int + 1)) =~= node_reports(sid@, ts, nodes@.take(n as int)).push(
                    (ts, sid@, metrics_view(nodes@[n as int])),
                ));
                n = n + 1;
            }
            assert(nodes@.take(nodes@.len() as int) =~= nodes@);
            let ghost t = hist@.take(h as int + 1);
            assert(t.drop_last() =~= hist@.take(h as int));
            assert(t.last() == hist@[h as int]);
            assert(base + history_reports(sid@, t) =~= base2 + node_reports(sid@, ts, nodes@));
            h = h + 1;
        }
        assert(hist@.take(hist@.len() as int) =~= hist@);
        let ghost t = sm@.take(s as int + 1);
        assert(t.drop_last() =~= sm@.take(s as int));
        assert(t.last() == sm@[s as int]);
        s = s + 1;
    }
    assert(sm@.take(sm@.len() as int) =~= sm@);
    out
}

fn find_node_group(g: &Vec<(String, Vec<NodeMetricsGrouped>)>, node_id: &str) -> (r: Option<usize>)
    ensures
        match r {
            Some(i) => i < g@.len() && g@[i as int].0@ == node_id@,
            None => forall|i: int| 0 <= i < g@.len() ==> g@[i].0@ != node_id@,
        },
{
    let mut i: usize = 0;
    while i < g.len()
        invariant
            i <= g@.len(),
            forall|j: int| 0 <= j < i ==> g@[j].0@ != node_id@,
        decreases g.len() - i,
    {
        if crate::subnet::str_eq(g[i].0.as_str(), node_id) {
            return Some(i);
        }
        i = i + 1;
    }
    None
}

/// The groups `g` stand for the reports `p`: one per node reported, in order of first report,
/// each with the reports about that node.
pub open spec fn groups_of(g: Seq<(String, Vec<NodeMetricsGrouped>)>, p: Seq<(u64, Seq<char>, (Seq<char>, u64, u64))>) -> bool {
    &&& g.len() == reported_nodes(p).len()
    &&& forall|i: int|
        0 <= i < g.len() ==> (#[trigger] g[i]).0@ == reported_nodes(p)[i] && g[i].1@.map_values(
            |x: NodeMetricsGrouped| report_view(x),
        ) == reports_about(p, g[i].0@)
}

/// The reports of the subnets (each with, for each report time, the totals of its nodes) grouped
/// by node: each node reported once, in the order of its first report, with the reports about it
/// (time, subnet, totals) in order.
pub fn grouped_by_node(subnet_metrics: Vec<(String, Vec<(u64, Vec<NodeMetrics>)>)>) -> (r: Vec<(String, Vec<NodeMetricsGrouped>)>)
    ensures
        groups_of(r@, all_reports(subnet_metrics@)),
{
    let flat = flatten_reports(&subnet_metrics);
    let ghost p = flat@.map_values(|x: NodeMetricsGrouped| report_view(x));
    let mut g: Vec<(String, Vec<NodeMetricsGrouped>)> = Vec::new();
    let mut k: usize = 0;
    assert(p.take(0) =~= Seq::<(u64, Seq<char>, (Seq<char>, u64, u64))>::empty());
    while k < flat.len()
        invariant
            k <= flat@.len(),
            p == flat@.map_values(|x: NodeMetricsGrouped| report_view(x)),
            groups_of(g@, p.take(k as int)),
        decreases flat.len() - k,
    {
        let ghost pk = p.take(k as int);
        let ghost t = p.take(k as int + 1);
        assert(t.drop_last() =~= pk);
        assert(t.last() == report_view(flat@[k as int]));
        let ghost x = flat@[k as int].2.node_id@;
        let ghost before = g@;
        let report = (flat[k].0, flat[k].1.clone(), copy_metrics(&flat[k].2));
        assert(report_view(report) == report_view(flat@[k as int]));
        match find_node_group(&g, flat[k].2.node_id.as_str()) {
            Some(i) => {
                assert(reported_nodes(pk).contains(x)) by {
                    assert(reported_nodes(pk)[i as int] == x);
                }
                let mut entry = g.remove(i);
                let ghost old_list = entry.1@;
                entry.1.push(report);
                assert(entry.1@.map_values(|y: NodeMetricsGrouped| report_view(y)) =~= old_list.map_values(
                    |y: NodeMetricsGrouped| report_view(y),
                ).push(report_view(report)));
                g.insert(i, entry);
                assert forall|j: int| 0 <= j < g@.len() implies (#[trigger] g@[j]).0@ == reported_nodes(t)[j] && g@[j].1@.map_values(
                    |y: NodeMetricsGrouped| report_view(y),
                ) == reports_about(t, g@[j].0@) by {
                    if j != i {
                        assert(g@[j] == before[j]);
                        assert(before[j].0@ != x) by {
                            assert(reported_nodes(pk)[j] != reported_nodes(pk)[i as int]) by {
                                lemma_reported_nodes_distinct(pk);
                            }
                        }
                    }
                }
            },
            None => {
                assert(!reported_nodes(pk).contains(x)) by {
                    if reported_nodes(pk).contains(x) {
                        let j = choose|j: int| 0 <= j < reported_nodes(pk).len() && reported_nodes(pk)[j] == x;
                        assert(before[j].0@ == x);
                    }
                }
                let list = vec![report];
                assert(list@.map_values(|y: NodeMetricsGrouped| report_view(y)) =~= seq![report_view(report)]);
                g.push((flat[k].2.node_id.clone(), list));
                proof {
                    lemma_reports_about_absent(pk, x);
                }
                assert(reports_about(pk, x) =~= Seq::<(u64, Seq<char>, (Seq<char>, u64, u64))>::empty());
                assert forall|j: int| 0 <= j < g@.len() implies (#[trigger] g@[j]).0@ == reported_nodes(t)[j] && g@[j].1@.map_values(
                    |y: NodeMetricsGrouped| report_view(y),
                ) == reports_about(t, g@[j].0@) by {
                    if j < before.len() {
                        assert(g@[j] == before[j]);
                        assert(before[j].0@ != x) by {
                            assert(reported_nodes(pk).contains(before[j].0@));
                        }
                    }
                }
            },
        }
        k = k + 1;
    }
    assert(p.take(flat@.len() as int) =~= p);
    g
}

proof fn lemma_reported_nodes_distinct(p: Seq<(u64, Seq<char>, (Seq<char>, u64, u64))>)
    ensures
        reported_nodes(p).no_duplicates(),
    decreases p.len(),
{
    if p.len() > 0 {
        lemma_reported_nodes_distinct(p.drop_last());
    }
}

proof fn lemma_reports_about_absent(p: Seq<(u64, Seq<char>, (Seq<char>, u64, u64))>, x: Seq<char>)
    requires
        !reported_nodes(p).contains(x),
    ensures
        reports_about(p, x).len() == 0,
    decreases p.len(),
{
    if p.len() > 0 {
        let d = reported_nodes(p.drop_last());
        if d.contains(x) {
            let j = choose|j: int| 0 <= j < d.len() && d[j] == x;
            if d.contains(p.last().2.0) {
                assert(reported_nodes(p)[j] == x);
            } else {
                assert(reported_nodes(p)[j] == x);
            }
        }
        let y = p.last().2.0;
        if d.contains(y) {
            let j = choose|j: int| 0 <= j < d.len() && d[j] == y;
            assert(reported_nodes(p)[j] == y);
        } else {
            assert(reported_nodes(p)[d.len() as int] == y);
        }
        assert(reported_nodes(p).contains(y));
        lemma_reports_about_absent(p.drop_last(), x);
    }
}

} // verus!
