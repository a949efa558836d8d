//! Daily node metrics by subnet: the stored reports of subnets, each with the blocks its nodes
//! proposed and failed that day.
use vstd::prelude::*;
use crate::reward_period::{spec_day_end, spec_day_start, DayUTC, NANOS_PER_DAY};
use crate::subnet::str_eq;

verus! {

/// The running totals of one node in a subnet's report.
#[derive(Debug, Clone, PartialEq, Eq)]
pub struct NodeMetricsTotals {
    pub node_id: String,
    pub num_blocks_proposed_total: u64,
    pub num_blocks_failed_total: u64,
}

/// A subnet's stored report at a time: the blocks each of its nodes proposed and failed that day.
#[derive(Debug, Clone, PartialEq, Eq)]
pub struct SubnetMetricsStored {
    pub ts: u64,
    pub subnet_id: String,
    pub nodes_metrics: Vec<NodeMetricsDailyRaw>,
}

/// The blocks a node proposed and failed on one day.
#[derive(Debug, Clone, PartialEq, Eq)]
pub struct NodeMetricsDailyRaw {
    pub node_id: String,
    pub num_blocks_proposed: u64,
    pub num_blocks_failed: u64,
}

/// A key of the stored reports: the time, then the subnet.
pub open spec fn report_key(r: SubnetMetricsStored) -> (u64, Seq<char>) {
    (r.ts, r.subnet_id@)
}

/// The first position of key `k` among the pairs, or -1.
pub open spec fn assoc_pos<K, V>(m: Seq<(K, V)>, k: K) -> int
    decreases m.len(),
{
    if m.len() == 0 {
        -1
    } else if assoc_pos(m.drop_last(), k) >= 0 {
        assoc_pos(m.drop_last(), k)
    } else if m.last().0 == k {
        m.len() - 1
    } else {
        -1
    }
}

/// The pairs with `v` under key `k`: in place of the pair with that key, or last.
pub open spec fn assoc_put<K, V>(m: Seq<(K, V)>, k: K, v: V) -> Seq<(K, V)> {
    let i = assoc_pos(m, k);
    if i >= 0 {
        m.update(i, (k, v))
    } else {
        m.push((k, v))
    }
}

/// The pairs without the pair with key `k`.
pub open spec fn assoc_del<K, V>(m: Seq<(K, V)>, k: K) -> Seq<(K, V)> {
    let i = assoc_pos(m, k);
    if i >= 0 {
        m.remove(i)
    } else {
        m
    }
}

/// The value under key `k`, or `d`.
pub open spec fn assoc_get<K, V>(m: Seq<(K, V)>, k: K, d: V) -> V {
    let i = assoc_pos(m, k);
    if i >= 0 {
        m[i].1
    } else {
        d
    }
}

/// The daily metrics, by (subnet, day end).
pub type DailyView = Seq<((Seq<char>, u64), Seq<(Seq<char>, u64, u64)>)>;

/// The reports from the start of `from` to the end of `to`.
pub open spec fn reports_in(stored: Seq<SubnetMetricsStored>, from: DayUTC, to: DayUTC) -> Seq<SubnetMetricsStored> {
    let start = spec_day_start(from.0.0 as int);
    stored.filter(|r: SubnetMetricsStored| start <= r.ts && r.ts <= to.0.0)
}

/// The daily metrics of the reports `rs`, in order, each under its subnet and the end of its day:
/// a later report of a subnet on the same day takes the place of an earlier one.
pub open spec fn by_day(rs: Seq<SubnetMetricsStored>) -> DailyView
    decreases rs.len(),
{
    if rs.len() == 0 {
        Seq::empty()
    } else {
        let r = rs.last();
        assoc_put(by_day(rs.drop_last()), (r.subnet_id@, spec_day_end(r.ts as int) as u64), raw_view(r.nodes_metrics@))
    }
}

/// The daily metrics of the days from `from` to `to` (see [`by_day`]).
pub open spec fn daily_by_subnet(stored: Seq<SubnetMetricsStored>, from: DayUTC, to: DayUTC) -> DailyView {
    by_day(reports_in(stored, from, to))
}

/// The view of daily metrics.
pub open spec fn raw_view(v: Seq<NodeMetricsDailyRaw>) -> Seq<(Seq<char>, u64, u64)> {
    v.map_values(|x: NodeMetricsDailyRaw| (x.node_id@, x.num_blocks_proposed, x.num_blocks_failed))
}

/// The view of daily metrics by (subnet, day).
pub open spec fn daily_view(v: Seq<((String, DayUTC), Vec<NodeMetricsDailyRaw>)>) -> DailyView {
    v.map_values(|p: ((String, DayUTC), Vec<NodeMetricsDailyRaw>)| ((p.0.0@, p.0.1.0.0), raw_view(p.1@)))
}

/// A key found among the first `k` pairs is found at the same place among all of them.
pub proof fn lemma_assoc_pos_prefix<K, V>(m: Seq<(K, V)>, k: int, key: K)
    requires
        0 <= k <= m.len(),
        assoc_pos(m.take(k), key) >= 0,
    ensures
        assoc_pos(m, key) == assoc_pos(m.take(k), key),
    decreases m.len() - k,
{
    if k < m.len() {
        assert(m.take(k + 1).drop_last() =~= m.take(k));
        lemma_assoc_pos_prefix(m, k + 1, key);
    } else {
        assert(m.take(k) =~= m);
    }
}

/// The position of a key is -1 or the index of a pair with that key.
pub proof fn lemma_assoc_pos_bounds<K, V>(m: Seq<(K, V)>, key: K)
    ensures
        -1 <= assoc_pos(m, key) < m.len(),
        assoc_pos(m, key) >= 0 ==> m[assoc_pos(m, key)].0 == key,
    decreases m.len(),
{
    if m.len() > 0 {
        lemma_assoc_pos_bounds(m.drop_last(), key);
    }
}

/// A copy of daily metrics.
pub fn copy_raws(v: &Vec<NodeMetricsDailyRaw>) -> (r: Vec<NodeMetricsDailyRaw>)
    ensures
        raw_view(r@) == raw_view(v@),
{
    let mut r: Vec<NodeMetricsDailyRaw> = Vec::new();
    let mut i: usize = 0;
    while i < v.len()
        invariant
            i <= v@.len(),
            raw_view(r@) == raw_view(v@.take(i as int)),
        decreases v.len() - i,
    {
        let ghost before = r@;
        let x = &v[i];
        r.push(NodeMetricsDailyRaw { node_id: x.node_id.clone(), num_blocks_proposed: x.num_blocks_proposed, num_blocks_failed: x.num_blocks_failed });
        assert(raw_view(r@) =~= raw_view(before).push((x.node_id@, x.num_blocks_proposed, x.num_blocks_failed)));
        assert(v@.take(i as int + 1).drop_last() =~= v@.take(i as int));
        assert(raw_view(v@.take(i as int + 1)) =~= raw_view(v@.take(i as int)).push((x.node_id@, x.num_blocks_proposed, x.num_blocks_failed)));
        i = i + 1;
    }
    assert(v@.take(v@.len() as int) =~= v@);
    r
}

fn find_day(out: &Vec<((String, DayUTC), Vec<NodeMetricsDailyRaw>)>, sn: &str, d: u64) -> (r: Option<usize>)
    ensures
        match r {
            Some(i) => i < out@.len() && i as int == assoc_pos(daily_view(out@), (sn@, d)),
            None => assoc_pos(daily_view(out@), (sn@, d)) == -1,
        },
{
    let mut i: usize = 0;
    while i < out.len()
        invariant
            i <= out@.len(),
            assoc_pos(daily_view(out@.take(i as int)), (sn@, d)) == -1,
        decreases out.len() - i,
    {
        let ghost t = out@.take(i as int + 1);
        assert(daily_view(t).drop_last() =~= daily_view(out@.take(i as int)));
        if str_eq(out[i].0.0.as_str(), sn) && out[i].0.1.0.0 == d {
            proof {
                lemma_assoc_pos_prefix(daily_view(out@), i as int + 1, (sn@, d));
                assert(daily_view(out@).take(i as int + 1) =~= daily_view(t));
            }
            return Some(i);
        }
        i = i + 1;
    }
    assert(out@.take(out@.len() as int) =~= out@);
    None
}

/// The reports whose time lies from `first` to `last`, in order.
fn select_reports(stored: &Vec<SubnetMetricsStored>, first: u64, last: u64) -> (r: Vec<&SubnetMetricsStored>)
    ensures
        r@.map_values(|x: &SubnetMetricsStored| *x) == stored@.filter(|x: SubnetMetricsStored| first <= x.ts && x.ts <= last),
{
    let mut r: Vec<&SubnetMetricsStored> = Vec::new();
    let mut i: usize = 0;
    assert(stored@.take(0).filter(|x: SubnetMetricsStored| first <= x.ts && x.ts <= last) =~= Seq::<SubnetMetricsStored>::empty()) by {
        reveal(Seq::filter);
    }
    while i < stored.len()
        invariant
            i <= stored@.len(),
            r@.map_values(|x: &SubnetMetricsStored| *x) == stored@.take(i as int).filter(
                |x: SubnetMetricsStored| first <= x.ts && x.ts <= last,
            ),
        decreases stored.len() - i,
    {
        let ghost t = stored@.take(i as int + 1);
        assert(t.drop_last() =~= stored@.take(i as int));
        assert(t.last() == stored@[i as int]);
        let keep = first <= stored[i].ts && stored[i].ts <= last;
        let ghost before = r@;
        assert(t.filter(|x: SubnetMetricsStored| first <= x.ts && x.ts <= last) == if keep {
            stored@.take(i as int).filter(|x: SubnetMetricsStored| first <= x.ts && x.ts <= last).push(stored@[i as int])
        } else {
            stored@.take(i as int).filter(|x: SubnetMetricsStored| first <= x.ts && x.ts <= last)
        }) by {
            reveal(Seq::filter);
        }
        if keep {
            r.push(&stored[i]);
            assert(r@.map_values(|x: &SubnetMetricsStored| *x) =~= before.map_values(|x: &SubnetMetricsStored| *x).push(stored@[i as int]));
        }
        i = i + 1;
    }
    assert(stored@.take(stored@.len() as int) =~= stored@);
    r
}

/// The daily metrics of each subnet's nodes for the days from `from` to `to`: the stored reports
/// of those days, in the order of their keys (time, then subnet), each under its subnet and day;
/// a later report of a subnet on the same day takes the place of an earlier one (see
/// [`daily_by_subnet`]).
pub fn daily_metrics_by_subnet(stored: &Vec<SubnetMetricsStored>, from: DayUTC, to: DayUTC) -> (r: Vec<((String, DayUTC), Vec<NodeMetricsDailyRaw>)>)
    requires
        crate::reward_period::aligned_in_range(to.0.0 as int),
    ensures
        daily_view(r@) == daily_by_subnet(stored@, from, to),
{
    let start = from.unix_ts_at_day_start();
    let sel = select_reports(stored, start, to.0.0);
    let ghost rs = sel@.map_values(|x: &SubnetMetricsStored| *x);
    assert(rs == reports_in(stored@, from, to));
    let mut out: Vec<((String, DayUTC), Vec<NodeMetricsDailyRaw>)> = Vec::new();
    let mut i: usize = 0;
    assert(rs.take(0) =~= Seq::<SubnetMetricsStored>::empty());
    assert(daily_view(out@) =~= Seq::<((Seq<char>, u64), Seq<(Seq<char>, u64, u64)>)>::empty());
    while i < sel.len()
        invariant
            i <= sel@.len(),
            rs == sel@.map_values(|x: &SubnetMetricsStored| *x),
            crate::reward_period::aligned_in_range(to.0.0 as int),
            forall|k: int| 0 <= k < rs.len() ==> (#[trigger] rs[k]).ts <= to.0.0,
            daily_view(out@) == by_day(rs.take(i as int)),
        decreases sel.len() - i,
    {
        let ghost t = rs.take(i as int + 1);
        assert(t.drop_last() =~= rs.take(i as int));
        assert(t.last() == rs[i as int]);
        let r: &SubnetMetricsStored = sel[i];
        assert(*r == rs[i as int]);
        proof {
            assert(r.ts <= to.0.0);
            assert(crate::reward_period::aligned_in_range(r.ts as int)) by {
                assert(r.ts as int / (NANOS_PER_DAY as int) <= to.0.0 as int / (NANOS_PER_DAY as int)) by (nonlinear_arith)
                    requires
                        r.ts <= to.0.0,
                ;
            }
        }
        let d = crate::reward_period::DayEndNanos::from(r.ts).0;
        let raws = copy_raws(&r.nodes_metrics);
        let ghost ob = out@;
        match find_day(&out, r.subnet_id.as_str(), d) {
            Some(k) => {
                out.set(k, ((r.subnet_id.clone(), DayUTC(crate::reward_period::DayEndNanos(d))), raws));
                assert(daily_view(out@) =~= daily_view(ob).update(k as int, ((r.subnet_id@, d), raw_view(out@[k as int].1@))));
            },
            None => {
                out.push(((r.subnet_id.clone(), DayUTC(crate::reward_period::DayEndNanos(d))), raws));
                assert(daily_view(out@) =~= daily_view(ob).push(((r.subnet_id@, d), raw_view(out@[out@.len() - 1].1@))));
            },
        }
        i = i + 1;
    }
    assert(rs.take(rs.len() as int) =~= rs);
    out
}

} // verus!
