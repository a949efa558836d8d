//! The performance part of a node provider's reward calculation: each node's daily metrics over
//! the reward period, its failure rates relative to those of its subnets, failure rates
//! extrapolated for the days it was not assigned, its performance multiplier, and the rewards
//! adjusted by them.
use vstd::prelude::*;
use crate::dec::{checked_sub, checked_mul, lt, spec_lt, spec_mul, spec_sub, Dec};
use crate::reward_period::{aligned_in_range, spec_day_end, DayEndNanos, NANOS_PER_DAY};
use crate::rewards_input::{NodeMetricsDaily, SubnetDailyFailureRate};
use crate::rewards_log::{all_wf, spec_sum, Operation};
use crate::categories::{is_type3, spec_is_type3, spec_type3_region_key, type3_region_key};
use crate::rewards_manager::{spec_rewards_reduction, spec_type3_average, type3_running, NodeRewardRate};
use crate::subnet::str_eq;
use crate::subnet_metrics::{assoc_pos, lemma_assoc_pos_bounds};

verus! {

/// The failure rate of a node on a day: as recorded, relative to its subnet's, extrapolated
/// from the other days, or not known.
#[derive(Debug, Clone, Copy)]
pub enum NodeFailureRate {
    Defined(Dec),
    DefinedRelative(Dec),
    Extrapolated(Dec),
    Undefined,
}

/// Whether a node was assigned to a subnet on a day, and to which.
#[derive(Debug, Clone)]
pub enum NodeStatus {
    Assigned { subnet_assigned: String },
    Unassigned,
}

/// What is known of a node on a day of the reward period.
#[derive(Debug, Clone)]
pub struct NodeMetricsDailyProcessed {
    pub ts: DayEndNanos,
    pub status: NodeStatus,
    pub num_blocks_proposed: u64,
    pub num_blocks_failed: u64,
    pub failure_rate: NodeFailureRate,
}

/// A processed day as plain values: the day, the subnet (if assigned), the blocks proposed and
/// failed, and the failure rate.
pub type ProcessedView = (u64, Option<Seq<char>>, u64, u64, NodeFailureRate);

/// The view of a processed day.
pub open spec fn processed_view(p: NodeMetricsDailyProcessed) -> ProcessedView {
    (
        p.ts.0,
        match p.status {
            NodeStatus::Assigned { subnet_assigned } => Some(subnet_assigned@),
            NodeStatus::Unassigned => None,
        },
        p.num_blocks_proposed,
        p.num_blocks_failed,
        p.failure_rate,
    )
}

/// The views of processed days.
pub open spec fn processed_views(v: Seq<NodeMetricsDailyProcessed>) -> Seq<ProcessedView> {
    v.map_values(|p: NodeMetricsDailyProcessed| processed_view(p))
}

/// The blocks of a day's metrics.
pub open spec fn blocks(m: NodeMetricsDaily) -> int {
    m.num_blocks_proposed + m.num_blocks_failed
}

/// The metrics with the most blocks, the last of them when several have as many.
pub open spec fn busiest(ms: Seq<NodeMetricsDaily>) -> NodeMetricsDaily
    decreases ms.len(),
{
    if ms.len() <= 1 {
        ms[0]
    } else {
        let b = busiest(ms.drop_last());
        if blocks(ms.last()) >= blocks(b) {
            ms.last()
        } else {
            b
        }
    }
}

/// The metrics of the day that ends at `ts`.
pub open spec fn on_day(ms: Seq<NodeMetricsDaily>, ts: u64) -> Seq<NodeMetricsDaily> {
    ms.filter(|m: NodeMetricsDaily| m.ts.0 == ts)
}

/// The day that ends at `ts` of a node with the metrics `ms` (`None`: no metrics at all): not
/// assigned when it has no metrics that day (no blocks, failure rate not known); otherwise
/// assigned to the subnet of its metrics with the most blocks that day (see [`busiest`]), with
/// their blocks and failure rate.
pub open spec fn day_processed(ms: Option<Seq<NodeMetricsDaily>>, ts: u64) -> ProcessedView {
    match ms {
        Some(ms) if on_day(ms, ts).len() > 0 => {
            let b = busiest(on_day(ms, ts));
            (ts, Some(b.subnet_assigned@), b.num_blocks_proposed, b.num_blocks_failed, NodeFailureRate::Defined(b.failure_rate))
        },
        _ => (ts, None, 0, 0, NodeFailureRate::Undefined),
    }
}

/// The end of day `day` of a period that starts at `start`.
pub open spec fn period_day(start: u64, day: int) -> u64 {
    spec_day_end(start + day * NANOS_PER_DAY) as u64
}

/// Each of the `days` days of the period that starts at `start`, for a node with the metrics `ms`
/// (see [`day_processed`]).
pub open spec fn metrics_in_period(days: nat, start: u64, ms: Option<Seq<NodeMetricsDaily>>) -> Seq<ProcessedView> {
    Seq::new(days, |d: int| day_processed(ms, period_day(start, d)))
}

/// The position of the metrics with the most blocks on the day that ends at `ts`, the last of
/// them when several have as many; `None` when there are none that day.
fn busiest_on_day(ms: &Vec<NodeMetricsDaily>, ts: u64) -> (r: Option<usize>)
    requires
        forall|i: int| 0 <= i < ms@.len() ==> blocks(#[trigger] ms@[i]) <= u64::MAX,
    ensures
        match r {
            None => on_day(ms@, ts).len() == 0,
            Some(i) => i < ms@.len() && on_day(ms@, ts).len() > 0 && ms@[i as int] == busiest(on_day(ms@, ts)),
        },
{
    let mut best: Option<usize> = None;
    let mut j: usize = 0;
    assert(on_day(ms@.take(0), ts) =~= Seq::<NodeMetricsDaily>::empty()) by {
        reveal(Seq::filter);
    }
    while j < ms.len()
        invariant
            j <= ms@.len(),
            forall|i: int| 0 <= i < ms@.len() ==> blocks(#[trigger] ms@[i]) <= u64::MAX,
            match best {
                None => on_day(ms@.take(j as int), ts).len() == 0,
                Some(i) => i < j && on_day(ms@.take(j as int), ts).len() > 0 && ms@[i as int] == busiest(
                    on_day(ms@.take(j as int), ts),
                ),
            },
        decreases ms.len() - j,
    {
        let ghost t = ms@.take(j as int + 1);
        assert(t.drop_last() =~= ms@.take(j as int));
        assert(t.last() == ms@[j as int]);
        let m = &ms[j];
        if m.ts.0 == ts {
            assert(on_day(t, ts) == on_day(ms@.take(j as int), ts).push(ms@[j as int])) by {
                reveal(Seq::filter);
            }
            let ghost d = on_day(t, ts);
            assert(d.drop_last() =~= on_day(ms@.take(j as int), ts));
            best = match best {
                None => Some(j),
                Some(i) => {
                    if m.num_blocks_proposed + m.num_blocks_failed >= ms[i].num_blocks_proposed + ms[i].num_blocks_failed {
                        Some(j)
                    } else {
                        Some(i)
                    }
                },
            };
        } else {
            assert(on_day(t, ts) == on_day(ms@.take(j as int), ts)) by {
                reveal(Seq::filter);
            }
        }
        j = j + 1;
    }
    assert(ms@.take(ms@.len() as int) =~= ms@);
    best
}

/// Each of the `days_in_period` days of the reward period that starts at
/// `reward_period_start_ts`, for a node with the metrics `metrics` (`None` when it has none; see
/// [`metrics_in_period`]).
pub fn compute_metrics_in_period(days_in_period: u64, reward_period_start_ts: u64, metrics: Option<&Vec<NodeMetricsDaily>>) -> (r: Vec<
    NodeMetricsDailyProcessed,
>)
    requires
        aligned_in_range(reward_period_start_ts + days_in_period * NANOS_PER_DAY),
        metrics matches Some(ms) ==> forall|i: int| 0 <= i < ms@.len() ==> blocks(#[trigger] ms@[i]) <= u64::MAX,
    ensures
        processed_views(r@) == metrics_in_period(
            days_in_period as nat,
            reward_period_start_ts,
            match metrics {
                Some(ms) => Some(ms@),
                None => None,
            },
        ),
{
    let ghost ms_view = match metrics {
        Some(ms) => Some(ms@),
        None => None::<Seq<NodeMetricsDaily>>,
    };
    let mut r: Vec<NodeMetricsDailyProcessed> = Vec::new();
    let mut day: u64 = 0;
    while day < days_in_period
        invariant
            day <= days_in_period,
            aligned_in_range(reward_period_start_ts + days_in_period * NANOS_PER_DAY),
            ms_view == match metrics {
                Some(ms) => Some(ms@),
                None => None,
            },
            metrics matches Some(ms) ==> forall|i: int| 0 <= i < ms@.len() ==> blocks(#[trigger] ms@[i]) <= u64::MAX,
            processed_views(r@) == metrics_in_period(day as nat, reward_period_start_ts, ms_view),
        decreases days_in_period - day,
    {
        proof {
            assert(day * NANOS_PER_DAY <= days_in_period * NANOS_PER_DAY) by (nonlinear_arith)
                requires
                    day <= days_in_period,
            ;
            assert(aligned_in_range(reward_period_start_ts + day * NANOS_PER_DAY)) by (nonlinear_arith)
                requires
                    aligned_in_range(reward_period_start_ts + days_in_period * NANOS_PER_DAY),
                    day <= days_in_period,
            ;
        }
        let ts = DayEndNanos::from(reward_period_start_ts + day * NANOS_PER_DAY);
        let p = match metrics {
            Some(ms) => match busiest_on_day(ms, ts.0) {
                Some(i) => NodeMetricsDailyProcessed {
                    ts,
                    status: NodeStatus::Assigned { subnet_assigned: ms[i].subnet_assigned.clone() },
                    num_blocks_proposed: ms[i].num_blocks_proposed,
                    num_blocks_failed: ms[i].num_blocks_failed,
                    failure_rate: NodeFailureRate::Defined(ms[i].failure_rate),
                },
                None => NodeMetricsDailyProcessed {
                    ts,
                    status: NodeStatus::Unassigned,
                    num_blocks_proposed: 0,
                    num_blocks_failed: 0,
                    failure_rate: NodeFailureRate::Undefined,
                },
            },
            None => NodeMetricsDailyProcessed {
                ts,
                status: NodeStatus::Unassigned,
                num_blocks_proposed: 0,
                num_blocks_failed: 0,
                failure_rate: NodeFailureRate::Undefined,
            },
        };
        assert(processed_view(p) == day_processed(ms_view, period_day(reward_period_start_ts, day as int)));
        let ghost before = r@;
        r.push(p);
        assert(processed_views(r@) =~= processed_views(before).push(processed_view(p)));
        assert(metrics_in_period((day + 1) as nat, reward_period_start_ts, ms_view) =~= metrics_in_period(
            day as nat,
            reward_period_start_ts,
            ms_view,
        ).push(day_processed(ms_view, period_day(reward_period_start_ts, day as int))));
        day = day + 1;
    }
    r
}

/// The failure rates of subnets as plain values.
pub open spec fn rates_view(v: Seq<(String, Vec<SubnetDailyFailureRate>)>) -> Seq<(Seq<char>, Seq<SubnetDailyFailureRate>)> {
    v.map_values(|p: (String, Vec<SubnetDailyFailureRate>)| (p.0@, p.1@))
}

/// The value of the first rate of the day that ends at `ts`.
pub open spec fn first_rate(rs: Seq<SubnetDailyFailureRate>, ts: u64) -> Option<Dec>
    decreases rs.len(),
{
    if rs.len() == 0 {
        None
    } else if first_rate(rs.drop_last(), ts) is Some {
        first_rate(rs.drop_last(), ts)
    } else if rs.last().ts.0 == ts {
        Some(rs.last().value)
    } else {
        None
    }
}

/// The failure rate of subnet `sn` on the day that ends at `ts`, from the rates of the subnets.
pub open spec fn subnet_fr(frs: Seq<(Seq<char>, Seq<SubnetDailyFailureRate>)>, sn: Seq<char>, ts: u64) -> Option<Dec> {
    let i = assoc_pos(frs, sn);
    if i >= 0 {
        first_rate(frs[i].1, ts)
    } else {
        None
    }
}

/// Zero.
pub open spec fn zero() -> Dec {
    Dec::spec_new(0, 0)
}

/// A failure rate `v` relative to its subnet's `s`: their difference, or zero when it is below
/// zero; `None` when the subtraction overflows.
pub open spec fn relative_fr(v: Dec, s: Dec) -> Option<Dec> {
    match spec_sub(v, s) {
        Some(d) => Some(if spec_lt(d, zero()) { zero() } else { d }),
        None => None,
    }
}

/// A day made relative to its subnet: a recorded failure rate of a day the node was assigned
/// becomes relative to the failure rate of its subnet that day; other days stay as they are.
pub open spec fn relative_day(p: ProcessedView, frs: Seq<(Seq<char>, Seq<SubnetDailyFailureRate>)>) -> Option<ProcessedView> {
    match (p.1, p.4) {
        (Some(sn), NodeFailureRate::Defined(v)) => match relative_fr(v, subnet_fr(frs, sn, p.0)->0) {
            Some(x) => Some((p.0, p.1, p.2, p.3, NodeFailureRate::DefinedRelative(x))),
            None => None,
        },
        _ => Some(p),
    }
}

/// The days made relative to their subnets (see [`relative_day`]); `None` when a subtraction
/// overflows.
pub open spec fn relative_days(ps: Seq<ProcessedView>, frs: Seq<(Seq<char>, Seq<SubnetDailyFailureRate>)>) -> Option<Seq<ProcessedView>>
    decreases ps.len(),
{
    if ps.len() == 0 {
        Some(Seq::empty())
    } else {
        match (relative_days(ps.drop_last(), frs), relative_day(ps.last(), frs)) {
            (Some(a), Some(b)) => Some(a.push(b)),
            _ => None,
        }
    }
}

/// Every day on which the node was assigned with a recorded failure rate has a failure rate of its
/// subnet, and the rates are valid decimals.
pub open spec fn subnet_rates_known(ps: Seq<ProcessedView>, frs: Seq<(Seq<char>, Seq<SubnetDailyFailureRate>)>) -> bool {
    forall|i: int|
        0 <= i < ps.len() ==> match (#[trigger] ps[i]).1 {
            Some(sn) => match ps[i].4 {
                NodeFailureRate::Defined(v) => v.wf() && (subnet_fr(frs, sn, ps[i].0) matches Some(s) && s.wf()),
                _ => true,
            },
            None => true,
        }
}

fn find_rate(rs: &Vec<SubnetDailyFailureRate>, ts: u64) -> (r: Option<Dec>)
    ensures
        r == first_rate(rs@, ts),
{
    let mut i: usize = 0;
    while i < rs.len()
        invariant
            i <= rs@.len(),
            first_rate(rs@.take(i as int), ts) is None,
        decreases rs.len() - i,
    {
        let ghost t = rs@.take(i as int + 1);
        assert(t.drop_last() =~= rs@.take(i as int));
        if rs[i].ts.0 == ts {
            proof {
                lemma_first_rate_prefix(rs@, i as int + 1, ts);
            }
            return Some(rs[i].value);
        }
        i = i + 1;
    }
    assert(rs@.take(rs@.len() as int) =~= rs@);
    None
}

proof fn lemma_first_rate_prefix(rs: Seq<SubnetDailyFailureRate>, k: int, ts: u64)
    requires
        0 <= k <= rs.len(),
        first_rate(rs.take(k), ts) is Some,
    ensures
        first_rate(rs, ts) == first_rate(rs.take(k), ts),
    decreases rs.len() - k,
{
    if k < rs.len() {
        assert(rs.take(k + 1).drop_last() =~= rs.take(k));
        lemma_first_rate_prefix(rs, k + 1, ts);
    } else {
        assert(rs.take(k) =~= rs);
    }
}

fn find_subnet_fr(frs: &Vec<(String, Vec<SubnetDailyFailureRate>)>, sn: &str, ts: u64) -> (r: Option<Dec>)
    ensures
        r == subnet_fr(rates_view(frs@), sn@, ts),
{
    let mut i: usize = 0;
    while i < frs.len()
        invariant
            i <= frs@.len(),
            assoc_pos(rates_view(frs@.take(i as int)), sn@) == -1,
        decreases frs.len() - i,
    {
        let ghost t = frs@.take(i as int + 1);
        assert(rates_view(t).drop_last() =~= rates_view(frs@.take(i as int)));
        if str_eq(frs[i].0.as_str(), sn) {
            proof {
                crate::subnet_metrics::lemma_assoc_pos_prefix(rates_view(frs@), i as int + 1, sn@);
                assert(rates_view(frs@).take(i as int + 1) =~= rates_view(t));
            }
            return find_rate(&frs[i].1, ts);
        }
        i = i + 1;
    }
    assert(frs@.take(frs@.len() as int) =~= frs@);
    None
}

/// A copy of a processed day.
fn copy_processed(p: &NodeMetricsDailyProcessed) -> (r: NodeMetricsDailyProcessed)
    ensures
        processed_view(r) == processed_view(*p),
{
    NodeMetricsDailyProcessed {
        ts: p.ts,
        status: match &p.status {
            NodeStatus::Assigned { subnet_assigned } => NodeStatus::Assigned { subnet_assigned: subnet_assigned.clone() },
            NodeStatus::Unassigned => NodeStatus::Unassigned,
        },
        num_blocks_proposed: p.num_blocks_proposed,
        num_blocks_failed: p.num_blocks_failed,
        failure_rate: p.failure_rate,
    }
}

/// The days of a node made relative to their subnets' failure rates `daily_subnets_fr` (see
/// [`relative_days`]); `None` when a subtraction overflows.
pub fn compute_relative_fr(days: &Vec<NodeMetricsDailyProcessed>, daily_subnets_fr: &Vec<(String, Vec<SubnetDailyFailureRate>)>) -> (r: Option<
    Vec<NodeMetricsDailyProcessed>,
>)
    requires
        subnet_rates_known(processed_views(days@), rates_view(daily_subnets_fr@)),
        rates_wf(processed_views(days@)),
    ensures
        match r {
            Some(v) => relative_days(processed_views(days@), rates_view(daily_subnets_fr@)) == Some(processed_views(v@)),
            None => relative_days(processed_views(days@), rates_view(daily_subnets_fr@)) is None,
        },
        r matches Some(v) ==> rates_wf(processed_views(v@)),
{
    let ghost ps = processed_views(days@);
    let ghost frs = rates_view(daily_subnets_fr@);
    let mut out: Vec<NodeMetricsDailyProcessed> = Vec::new();
    let mut i: usize = 0;
    assert(ps.take(0) =~= Seq::<ProcessedView>::empty());
    while i < days.len()
        invariant
            i <= days@.len(),
            ps == processed_views(days@),
            frs == rates_view(daily_subnets_fr@),
            subnet_rates_known(ps, frs),
            rates_wf(ps),
            rates_wf(processed_views(out@)),
            relative_days(ps.take(i as int), frs) == Some(processed_views(out@)),
        decreases days.len() - i,
    {
        let ghost t = ps.take(i as int + 1);
        assert(t.drop_last() =~= ps.take(i as int));
        assert(t.last() == ps[i as int]);
        let p = &days[i];
        assert(processed_view(*p) == ps[i as int]);
        let q = match (&p.status, p.failure_rate) {
            (NodeStatus::Assigned { subnet_assigned }, NodeFailureRate::Defined(v)) => {
                let s = match find_subnet_fr(daily_subnets_fr, subnet_assigned.as_str(), p.ts.0) {
                    Some(s) => s,
                    None => {
                        assert(false);
                        return None;
                    },
                };
                match checked_sub(v, s) {
                    Some(d) => {
                        let x = if lt(d, Dec::zero()) {
                            Dec::zero()
                        } else {
                            d
                        };
                        NodeMetricsDailyProcessed {
                            ts: p.ts,
                            status: NodeStatus::Assigned { subnet_assigned: subnet_assigned.clone() },
                            num_blocks_proposed: p.num_blocks_proposed,
                            num_blocks_failed: p.num_blocks_failed,
                            failure_rate: NodeFailureRate::DefinedRelative(x),
                        }
                    },
                    None => {
                        proof {
                            lemma_relative_days_none(ps, frs, i as int + 1);
                        }
                        return None;
                    },
                }
            },
            _ => copy_processed(p),
        };
        assert(relative_day(ps[i as int], frs) == Some(processed_view(q)));
        let ghost before = out@;
        out.push(q);
        assert(processed_views(out@) =~= processed_views(before).push(processed_view(q)));
        assert(rates_wf(processed_views(out@))) by {
            assert forall|j: int| 0 <= j < processed_views(out@).len() implies match (#[trigger] processed_views(out@)[j]).4 {
                NodeFailureRate::Defined(v) => v.wf(),
                NodeFailureRate::DefinedRelative(v) => v.wf(),
                NodeFailureRate::Extrapolated(v) => v.wf(),
                NodeFailureRate::Undefined => true,
            } by {
                if j < before.len() {
                    assert(processed_views(out@)[j] == processed_views(before)[j]);
                }
            }
        }
        i = i + 1;
    }
    assert(ps.take(ps.len() as int) =~= ps);
    Some(out)
}

/// A prefix of the days that fails makes them all fail.
proof fn lemma_relative_days_none(ps: Seq<ProcessedView>, frs: Seq<(Seq<char>, Seq<SubnetDailyFailureRate>)>, k: int)
    requires
        0 <= k <= ps.len(),
        relative_days(ps.take(k), frs) is None,
    ensures
        relative_days(ps, frs) is None,
    decreases ps.len() - k,
{
    if k < ps.len() {
        assert(ps.take(k + 1).drop_last() =~= ps.take(k));
        lemma_relative_days_none(ps, frs, k + 1);
    } else {
        assert(ps.take(k) =~= ps);
    }
}

/// The relative failure rates of the days, in order.
pub open spec fn relative_values(ps: Seq<ProcessedView>) -> Seq<Dec>
    decreases ps.len(),
{
    if ps.len() == 0 {
        Seq::empty()
    } else {
        let a = relative_values(ps.drop_last());
        match ps.last().4 {
            NodeFailureRate::DefinedRelative(v) => a.push(v),
            _ => a,
        }
    }
}

/// The relative and extrapolated failure rates of the days, in order.
pub open spec fn known_values(ps: Seq<ProcessedView>) -> Seq<Dec>
    decreases ps.len(),
{
    if ps.len() == 0 {
        Seq::empty()
    } else {
        let a = known_values(ps.drop_last());
        match ps.last().4 {
            NodeFailureRate::DefinedRelative(v) => a.push(v),
            NodeFailureRate::Extrapolated(v) => a.push(v),
            _ => a,
        }
    }
}

/// The average of decimals: their sum over their number (one when there are none); `None` when
/// a step overflows.
pub open spec fn spec_avg(s: Seq<Dec>) -> Option<Dec> {
    match spec_sum(s) {
        Some(t) => crate::dec::spec_div(t, Dec::spec_new(if s.len() == 0 { 1 } else { s.len() as int }, 0)),
        None => None,
    }
}

/// The days with the failure rates that are not known replaced by the extrapolated rate `x`.
pub open spec fn fill_undefined(ps: Seq<ProcessedView>, x: Dec) -> Seq<ProcessedView> {
    ps.map_values(
        |p: ProcessedView|
            match p.4 {
                NodeFailureRate::Undefined => (p.0, p.1, p.2, p.3, NodeFailureRate::Extrapolated(x)),
                _ => p,
            },
    )
}

/// One.
pub open spec fn one() -> Dec {
    Dec::spec_new(1, 0)
}

/// What the performance of a node gives, from its days made relative to their subnets `ps`, the
/// extrapolated failure rate `x` and the base rewards `base` of its category, with full rewards
/// when `full`: its days with the unknown rates extrapolated, the average of its relative rates
/// (zero when there are none), the average of its relative and extrapolated rates, the reduction
/// of its rewards for that average (see [`spec_rewards_reduction`]), its performance multiplier
/// (one less the reduction), and its rewards: the base rewards when `full`, else the base
/// rewards times the multiplier. `None` when a step overflows.
pub open spec fn node_outcome(ps: Seq<ProcessedView>, x: Dec, base: Dec, full: bool) -> Option<(Seq<ProcessedView>, Dec, Dec, Dec, Dec, Dec)> {
    let filled = fill_undefined(ps, x);
    let rel = if relative_values(ps).len() == 0 { Some(zero()) } else { spec_avg(relative_values(ps)) };
    match (rel, spec_avg(known_values(filled))) {
        (Some(avg_rel), Some(avg_ext)) => match spec_rewards_reduction(avg_ext) {
            Some(red) => match spec_sub(one(), red) {
                Some(mult) => {
                    let adjusted = if full { Some(base) } else { spec_mul(base, mult) };
                    match adjusted {
                        Some(adj) => Some((filled, avg_rel, avg_ext, red, mult, adj)),
                        None => None,
                    }
                },
                None => None,
            },
            None => None,
        },
        _ => None,
    }
}

/// What the calculation gives for a node.
pub struct NodeResults {
    pub node_id: String,
    pub daily_metrics_processed: Vec<NodeMetricsDailyProcessed>,
    pub average_relative_fr: Dec,
    pub average_extrapolated_fr: Dec,
    pub rewards_reduction: Dec,
    pub performance_multiplier: Dec,
    pub base_rewards: Dec,
    pub adjusted_rewards: Dec,
}

/// A node's results as plain values.
pub open spec fn results_view(n: NodeResults) -> (Seq<char>, Seq<ProcessedView>, Dec, Dec, Dec, Dec, Dec, Dec) {
    (
        n.node_id@,
        processed_views(n.daily_metrics_processed@),
        n.average_relative_fr,
        n.average_extrapolated_fr,
        n.rewards_reduction,
        n.performance_multiplier,
        n.base_rewards,
        n.adjusted_rewards,
    )
}

/// Every failure rate of the days is a valid decimal.
pub open spec fn rates_wf(ps: Seq<ProcessedView>) -> bool {
    forall|i: int|
        0 <= i < ps.len() ==> match (#[trigger] ps[i]).4 {
            NodeFailureRate::Defined(v) => v.wf(),
            NodeFailureRate::DefinedRelative(v) => v.wf(),
            NodeFailureRate::Extrapolated(v) => v.wf(),
            NodeFailureRate::Undefined => true,
        }
}

/// The average of decimals (see [`spec_avg`]).
pub fn avg(values: Vec<Dec>) -> (r: Option<Dec>)
    requires
        all_wf(values@),
    ensures
        r == spec_avg(values@),
        r matches Some(x) ==> x.wf(),
{
    let op = Operation::Avg(values);
    op.execute()
}

/// The relative (or, with `with_extrapolated`, also the extrapolated) failure rates of the days.
fn collect_values(days: &Vec<NodeMetricsDailyProcessed>, with_extrapolated: bool) -> (r: Vec<Dec>)
    requires
        rates_wf(processed_views(days@)),
    ensures
        r@ == if with_extrapolated { known_values(processed_views(days@)) } else { relative_values(processed_views(days@)) },
        all_wf(r@),
{
    let ghost ps = processed_views(days@);
    let mut r: Vec<Dec> = Vec::new();
    let mut i: usize = 0;
    assert(ps.take(0) =~= Seq::<ProcessedView>::empty());
    while i < days.len()
        invariant
            i <= days@.len(),
            ps == processed_views(days@),
            rates_wf(ps),
            r@ == if with_extrapolated { known_values(ps.take(i as int)) } else { relative_values(ps.take(i as int)) },
            all_wf(r@),
        decreases days.len() - i,
    {
        let ghost t = ps.take(i as int + 1);
        assert(t.drop_last() =~= ps.take(i as int));
        assert(t.last() == ps[i as int]);
        assert(processed_view(days@[i as int]) == ps[i as int]);
        match days[i].failure_rate {
            NodeFailureRate::DefinedRelative(v) => {
                r.push(v);
            },
            NodeFailureRate::Extrapolated(v) => {
                if with_extrapolated {
                    r.push(v);
                }
            },
            _ => {},
        }
        i = i + 1;
    }
    assert(ps.take(ps.len() as int) =~= ps);
    r
}

/// The reduction of rewards for the average failure rate `fr` (see [`spec_rewards_reduction`]).
fn rewards_reduction(fr: Dec) -> (r: Option<Dec>)
    requires
        fr.wf(),
    ensures
        r == spec_rewards_reduction(fr),
        r matches Some(x) ==> x.wf(),
{
    let min_fr = Dec::new(1, 1);
    let max_fr = Dec::new(6, 1);
    let max_reduction = Dec::new(8, 1);
    if lt(fr, min_fr) {
        Some(Dec::zero())
    } else if lt(max_fr, fr) {
        Some(max_reduction)
    } else {
        let y = checked_sub(fr, min_fr)?;
        let x = checked_sub(max_fr, min_fr)?;
        let m = crate::dec::checked_div(y, x)?;
        checked_mul(m, max_reduction)
    }
}

/// The results of node `node_id` from its days made relative to their subnets `days`, the
/// extrapolated failure rate `x` and the base rewards `base_rewards` of its category, with full
/// rewards when `full` (see [`node_outcome`]). `None` when a step overflows.
pub fn node_results(node_id: &String, days: Vec<NodeMetricsDailyProcessed>, x: Dec, base_rewards: Dec, full: bool) -> (r: Option<NodeResults>)
    requires
        rates_wf(processed_views(days@)),
        x.wf(),
        base_rewards.wf(),
    ensures
        match node_outcome(processed_views(days@), x, base_rewards, full) {
            Some(o) => r matches Some(n) && results_view(n) == (node_id@, o.0, o.1, o.2, o.3, o.4, base_rewards, o.5),
            None => r is None,
        },
        r matches Some(n) ==> n.adjusted_rewards.wf(),
{
    let ghost ps = processed_views(days@);
    let rel = collect_values(&days, false);
    let avg_rel = if rel.len() == 0 {
        Dec::zero()
    } else {
        avg(rel)?
    };
    let mut filled: Vec<NodeMetricsDailyProcessed> = Vec::new();
    let mut i: usize = 0;
    assert(ps.take(0) =~= Seq::<ProcessedView>::empty());
    while i < days.len()
        invariant
            i <= days@.len(),
            ps == processed_views(days@),
            rates_wf(ps),
            x.wf(),
            processed_views(filled@) == fill_undefined(ps.take(i as int), x),
        decreases days.len() - i,
    {
        let p = &days[i];
        assert(processed_view(*p) == ps[i as int]);
        let q = match p.failure_rate {
            NodeFailureRate::Undefined => {
                let mut c = copy_processed(p);
                c.failure_rate = NodeFailureRate::Extrapolated(x);
                c
            },
            _ => copy_processed(p),
        };
        let ghost before = filled@;
        filled.push(q);
        assert(processed_views(filled@) =~= processed_views(before).push(processed_view(q)));
        assert(fill_undefined(ps.take(i as int + 1), x) =~= fill_undefined(ps.take(i as int), x).push(processed_view(q)));
        i = i + 1;
    }
    assert(ps.take(ps.len() as int) =~= ps);
    assert(rates_wf(fill_undefined(ps, x)));
    let known = collect_values(&filled, true);
    let avg_ext = avg(known)?;
    let red = rewards_reduction(avg_ext)?;
    let mult = checked_sub(Dec::one(), red)?;
    let adjusted = if full {
        base_rewards
    } else {
        checked_mul(base_rewards, mult)?
    };
    Some(
        NodeResults {
            node_id: node_id.clone(),
            daily_metrics_processed: filled,
            average_relative_fr: avg_rel,
            average_extrapolated_fr: avg_ext,
            rewards_reduction: red,
            performance_multiplier: mult,
            base_rewards,
            adjusted_rewards: adjusted,
        },
    )
}

/// The metrics of all nodes as plain values, by node.
pub open spec fn metrics_view(m: Seq<(String, Vec<NodeMetricsDaily>)>) -> Seq<(Seq<char>, Seq<NodeMetricsDaily>)> {
    m.map_values(|p: (String, Vec<NodeMetricsDaily>)| (p.0@, p.1@))
}

/// The metrics of node `node`: those of its first entry, or `None`.
pub open spec fn metrics_of(m: Seq<(Seq<char>, Seq<NodeMetricsDaily>)>, node: Seq<char>) -> Option<Seq<NodeMetricsDaily>> {
    let i = assoc_pos(m, node);
    if i >= 0 {
        Some(m[i].1)
    } else {
        None
    }
}

/// The days of the reward period of node `node`, made relative to their subnets.
pub open spec fn node_days(
    days: nat,
    start: u64,
    m: Seq<(Seq<char>, Seq<NodeMetricsDaily>)>,
    frs: Seq<(Seq<char>, Seq<SubnetDailyFailureRate>)>,
    node: Seq<char>,
) -> Option<Seq<ProcessedView>> {
    relative_days(metrics_in_period(days, start, metrics_of(m, node)), frs)
}

/// The days of each node (see [`node_days`]); `None` when a step overflows.
pub open spec fn nodes_days(
    days: nat,
    start: u64,
    m: Seq<(Seq<char>, Seq<NodeMetricsDaily>)>,
    frs: Seq<(Seq<char>, Seq<SubnetDailyFailureRate>)>,
    nodes: Seq<Seq<char>>,
) -> Option<Seq<Seq<ProcessedView>>>
    decreases nodes.len(),
{
    if nodes.len() == 0 {
        Some(Seq::empty())
    } else {
        match (nodes_days(days, start, m, frs, nodes.drop_last()), node_days(days, start, m, frs, nodes.last())) {
            (Some(a), Some(b)) => Some(a.push(b)),
            _ => None,
        }
    }
}

/// The average relative failure rate of each node that has relative failure rates, in order;
/// `None` when a step overflows.
pub open spec fn node_averages(nd: Seq<Seq<ProcessedView>>) -> Option<Seq<Dec>>
    decreases nd.len(),
{
    if nd.len() == 0 {
        Some(Seq::empty())
    } else {
        match node_averages(nd.drop_last()) {
            Some(a) => {
                let vs = relative_values(nd.last());
                if vs.len() == 0 {
                    Some(a)
                } else {
                    match spec_avg(vs) {
                        Some(x) => Some(a.push(x)),
                        None => None,
                    }
                }
            },
            None => None,
        }
    }
}

/// The extrapolated failure rate: the average of the nodes' average relative failure rates.
pub open spec fn extrapolated(nd: Seq<Seq<ProcessedView>>) -> Option<Dec> {
    match node_averages(nd) {
        Some(a) => spec_avg(a),
        None => None,
    }
}

/// What the performance of each node gives (see [`node_outcome`]); `None` when a step overflows.
pub open spec fn nodes_outcomes(nd: Seq<Seq<ProcessedView>>, bases: Seq<Dec>, x: Dec, full: bool) -> Option<
    Seq<(Seq<ProcessedView>, Dec, Dec, Dec, Dec, Dec)>,
>
    decreases nd.len(),
{
    if nd.len() == 0 {
        Some(Seq::empty())
    } else {
        match (nodes_outcomes(nd.drop_last(), bases, x, full), node_outcome(nd.last(), x, bases[nd.len() - 1], full)) {
            (Some(a), Some(b)) => Some(a.push(b)),
            _ => None,
        }
    }
}

/// Up to this many nodes, a provider gets the full rewards of its nodes whatever their
/// performance.
pub const FULL_REWARDS_MACHINES_LIMIT: usize = 4;

/// The ids of the nodes.
pub open spec fn node_ids(nodes: Seq<(Seq<char>, Dec)>) -> Seq<Seq<char>> {
    nodes.map_values(|n: (Seq<char>, Dec)| n.0)
}

/// The base rewards of the nodes.
pub open spec fn node_bases(nodes: Seq<(Seq<char>, Dec)>) -> Seq<Dec> {
    nodes.map_values(|n: (Seq<char>, Dec)| n.1)
}

/// The outcome of the calculation for a provider with the nodes `nodes` (each with the base
/// rewards of its category) over the `days` days from `start`: each node's days made relative to
/// their subnets, the extrapolated failure rate, each node's outcome (full rewards when the
/// provider has at most [`FULL_REWARDS_MACHINES_LIMIT`] nodes) and the total of the nodes'
/// rewards. `None` when a step overflows.
pub open spec fn provider_outcome(
    days: nat,
    start: u64,
    nodes: Seq<(Seq<char>, Dec)>,
    m: Seq<(Seq<char>, Seq<NodeMetricsDaily>)>,
    frs: Seq<(Seq<char>, Seq<SubnetDailyFailureRate>)>,
) -> Option<(Seq<(Seq<ProcessedView>, Dec, Dec, Dec, Dec, Dec)>, Dec, Dec)> {
    match nodes_days(days, start, m, frs, node_ids(nodes)) {
        Some(nd) => outcome_from_days(nd, nodes),
        None => None,
    }
}

/// The outcome from the nodes' days `nd` (see [`provider_outcome`]).
pub open spec fn outcome_from_days(nd: Seq<Seq<ProcessedView>>, nodes: Seq<(Seq<char>, Dec)>) -> Option<
    (Seq<(Seq<ProcessedView>, Dec, Dec, Dec, Dec, Dec)>, Dec, Dec),
> {
    match extrapolated(nd) {
        Some(x) => outcome_with_rate(nd, nodes, x),
        None => None,
    }
}

/// The outcome from the nodes' days `nd` and the extrapolated failure rate `x` (see
/// [`provider_outcome`]).
pub open spec fn outcome_with_rate(nd: Seq<Seq<ProcessedView>>, nodes: Seq<(Seq<char>, Dec)>, x: Dec) -> Option<
    (Seq<(Seq<ProcessedView>, Dec, Dec, Dec, Dec, Dec)>, Dec, Dec),
> {
    match nodes_outcomes(nd, node_bases(nodes), x, nodes.len() <= FULL_REWARDS_MACHINES_LIMIT) {
        Some(outs) => match spec_sum(adjusted_of(outs)) {
            Some(total) => Some((outs, x, total)),
            None => None,
        },
        None => None,
    }
}

/// The adjusted rewards of the nodes' outcomes.
pub open spec fn adjusted_of(outs: Seq<(Seq<ProcessedView>, Dec, Dec, Dec, Dec, Dec)>) -> Seq<Dec> {
    outs.map_values(|o: (Seq<ProcessedView>, Dec, Dec, Dec, Dec, Dec)| o.5)
}

/// The nodes with their base rewards as plain values.
pub open spec fn nodes_view(v: Seq<(String, Dec)>) -> Seq<(Seq<char>, Dec)> {
    v.map_values(|n: (String, Dec)| (n.0@, n.1))
}

/// The results of the calculation for a node provider.
pub struct ProviderCalculatorResults {
    pub nodes_results: Vec<NodeResults>,
    pub extrapolated_fr: Dec,
    pub rewards_total: Dec,
}

/// The metrics of every node have a number of blocks that fits in 64 bits and valid failure
/// rates.
pub open spec fn metrics_fit(m: Seq<(Seq<char>, Seq<NodeMetricsDaily>)>) -> bool {
    forall|i: int, j: int|
        0 <= i < m.len() && 0 <= j < m[i].1.len() ==> blocks(#[trigger] m[i].1[j]) <= u64::MAX && m[i].1[j].failure_rate.wf()
}

proof fn lemma_busiest_in(ms: Seq<NodeMetricsDaily>)
    requires
        ms.len() > 0,
    ensures
        ms.contains(busiest(ms)),
    decreases ms.len(),
{
    if ms.len() > 1 {
        lemma_busiest_in(ms.drop_last());
        let b = busiest(ms.drop_last());
        let k = choose|k: int| 0 <= k < ms.drop_last().len() && ms.drop_last()[k] == b;
        assert(ms[k] == b);
        assert(ms[ms.len() - 1] == ms.last());
    } else {
        assert(ms[0] == busiest(ms));
    }
}

/// The days of the period of a node whose metrics have valid failure rates have valid failure
/// rates.
proof fn lemma_period_rates_wf(days: nat, start: u64, ms: Option<Seq<NodeMetricsDaily>>)
    requires
        ms matches Some(s) ==> forall|j: int| 0 <= j < s.len() ==> (#[trigger] s[j]).failure_rate.wf(),
    ensures
        rates_wf(metrics_in_period(days, start, ms)),
{
    broadcast use vstd::seq_lib::group_filter_ensures;
    assert forall|d: int| 0 <= d < metrics_in_period(days, start, ms).len() implies match (#[trigger] metrics_in_period(
        days,
        start,
        ms,
    )[d]).4 {
        NodeFailureRate::Defined(v) => v.wf(),
        NodeFailureRate::DefinedRelative(v) => v.wf(),
        NodeFailureRate::Extrapolated(v) => v.wf(),
        NodeFailureRate::Undefined => true,
    } by {
        let ts = period_day(start, d);
        if let Some(s) = ms {
            let f = on_day(s, ts);
            if f.len() > 0 {
                lemma_busiest_in(f);
                s.lemma_filter_contains_rev(|m: NodeMetricsDaily| m.ts.0 == ts, busiest(f));
            }
        }
    }
}

fn find_metrics(m: &Vec<(String, Vec<NodeMetricsDaily>)>, node: &str) -> (r: Option<usize>)
    ensures
        match r {
            Some(i) => i < m@.len() && i as int == assoc_pos(metrics_view(m@), node@),
            None => assoc_pos(metrics_view(m@), node@) == -1,
        },
{
    let mut i: usize = 0;
    while i < m.len()
        invariant
            i <= m@.len(),
            assoc_pos(metrics_view(m@.take(i as int)), node@) == -1,
        decreases m.len() - i,
    {
        let ghost t = m@.take(i as int + 1);
        assert(metrics_view(t).drop_last() =~= metrics_view(m@.take(i as int)));
        if str_eq(m[i].0.as_str(), node) {
            proof {
                crate::subnet_metrics::lemma_assoc_pos_prefix(metrics_view(m@), i as int + 1, node@);
                assert(metrics_view(m@).take(i as int + 1) =~= metrics_view(t));
            }
            return Some(i);
        }
        i = i + 1;
    }
    assert(m@.take(m@.len() as int) =~= m@);
    None
}

/// The calculation for a node provider with the nodes `rewardable_nodes`, each with its base
/// rewards, over the `days_in_period` days of the reward period from
/// `reward_period_start_ts`, from the nodes' daily metrics `daily_metrics_by_node` and the
/// subnets' daily failure rates `daily_subnets_fr` (see [`provider_outcome`]): each node's days
/// with their failure rates made relative to their subnets' and the unknown ones extrapolated,
/// its performance multiplier and its adjusted rewards; the extrapolated failure rate; and the
/// total of the adjusted rewards. `None` when a step overflows. A node assigned to a subnet on
/// a day needs the subnet's failure rate of that day.
pub fn calculate_rewards_from_bases(
    days_in_period: u64,
    reward_period_start_ts: u64,
    rewardable_nodes: &Vec<(String, Dec)>,
    daily_metrics_by_node: &Vec<(String, Vec<NodeMetricsDaily>)>,
    daily_subnets_fr: &Vec<(String, Vec<SubnetDailyFailureRate>)>,
) -> (r: Option<ProviderCalculatorResults>)
    requires
        aligned_in_range(reward_period_start_ts + days_in_period * NANOS_PER_DAY),
        metrics_fit(metrics_view(daily_metrics_by_node@)),
        forall|k: int|
            0 <= k < rewardable_nodes@.len() ==> (#[trigger] rewardable_nodes@[k]).1.wf() && subnet_rates_known(
                metrics_in_period(
                    days_in_period as nat,
                    reward_period_start_ts,
                    metrics_of(metrics_view(daily_metrics_by_node@), rewardable_nodes@[k].0@),
                ),
                rates_view(daily_subnets_fr@),
            ),
    ensures
        match provider_outcome(
            days_in_period as nat,
            reward_period_start_ts,
            nodes_view(rewardable_nodes@),
            metrics_view(daily_metrics_by_node@),
            rates_view(daily_subnets_fr@),
        ) {
            Some(o) => r matches Some(res) && res.extrapolated_fr == o.1 && res.rewards_total == o.2 && res.nodes_results@.len()
                == o.0.len() && forall|k: int|
                0 <= k < o.0.len() ==> #[trigger] results_view(res.nodes_results@[k]) == (
                    rewardable_nodes@[k].0@,
                    o.0[k].0,
                    o.0[k].1,
                    o.0[k].2,
                    o.0[k].3,
                    o.0[k].4,
                    rewardable_nodes@[k].1,
                    o.0[k].5,
                ),
            None => r is None,
        },
{
    let ghost mv = metrics_view(daily_metrics_by_node@);
    let ghost frs = rates_view(daily_subnets_fr@);
    let ghost nodes = nodes_view(rewardable_nodes@);
    let ghost ids = node_ids(nodes);
    let ghost bases = node_bases(nodes);
    let n = rewardable_nodes.len();
    // The days of each node.
    let mut nd: Vec<Vec<NodeMetricsDailyProcessed>> = Vec::new();
    let mut k: usize = 0;
    assert(ids.take(0) =~= Seq::<Seq<char>>::empty());
    assert(nd@.map_values(|v: Vec<NodeMetricsDailyProcessed>| processed_views(v@)) =~= Seq::<Seq<ProcessedView>>::empty());
    while k < n
        invariant
            k <= n,
            n == rewardable_nodes@.len(),
            mv == metrics_view(daily_metrics_by_node@),
            frs == rates_view(daily_subnets_fr@),
            nodes == nodes_view(rewardable_nodes@),
            ids == node_ids(nodes),
            nd@.len() == k,
            aligned_in_range(reward_period_start_ts + days_in_period * NANOS_PER_DAY),
            metrics_fit(mv),
            forall|j: int|
                0 <= j < rewardable_nodes@.len() ==> (#[trigger] rewardable_nodes@[j]).1.wf() && subnet_rates_known(
                    metrics_in_period(days_in_period as nat, reward_period_start_ts, metrics_of(mv, rewardable_nodes@[j].0@)),
                    frs,
                ),
            nodes_days(days_in_period as nat, reward_period_start_ts, mv, frs, ids.take(k as int)) == Some(
                nd@.map_values(|v: Vec<NodeMetricsDailyProcessed>| processed_views(v@)),
            ),
            forall|j: int| 0 <= j < nd@.len() ==> rates_wf(processed_views((#[trigger] nd@[j])@)),
        decreases n - k,
    {
        let ghost t = ids.take(k as int + 1);
        assert(t.drop_last() =~= ids.take(k as int));
        assert(t.last() == rewardable_nodes@[k as int].0@);
        let id = &rewardable_nodes[k].0;
        let found = find_metrics(daily_metrics_by_node, id.as_str());
        proof {
            lemma_assoc_pos_bounds(mv, id@);
        }
        let period = match found {
            Some(i) => {
                assert(mv[i as int].1 == daily_metrics_by_node@[i as int].1@);
                assert(forall|j: int| 0 <= j < daily_metrics_by_node@[i as int].1@.len() ==> blocks(
                    #[trigger] daily_metrics_by_node@[i as int].1@[j],
                ) <= u64::MAX && daily_metrics_by_node@[i as int].1@[j].failure_rate.wf()) by {
                    assert forall|j: int| 0 <= j < daily_metrics_by_node@[i as int].1@.len() implies blocks(
                        #[trigger] daily_metrics_by_node@[i as int].1@[j],
                    ) <= u64::MAX && daily_metrics_by_node@[i as int].1@[j].failure_rate.wf() by {
                        assert(mv[i as int].1[j] == daily_metrics_by_node@[i as int].1@[j]);
                    }
                }
                compute_metrics_in_period(days_in_period, reward_period_start_ts, Some(&daily_metrics_by_node[i].1))
            },
            None => compute_metrics_in_period(days_in_period, reward_period_start_ts, None),
        };
        let ghost ms = metrics_of(mv, id@);
        assert(processed_views(period@) == metrics_in_period(days_in_period as nat, reward_period_start_ts, ms));
        proof {
            if let Some(s) = ms {
                let i = assoc_pos(mv, id@);
                assert forall|j: int| 0 <= j < s.len() implies (#[trigger] s[j]).failure_rate.wf() by {
                    assert(s[j] == mv[i].1[j]);
                }
            }
            lemma_period_rates_wf(days_in_period as nat, reward_period_start_ts, ms);
        }
        let rel = match compute_relative_fr(&period, daily_subnets_fr) {
            Some(v) => v,
            None => {
                proof {
                    assert(node_days(days_in_period as nat, reward_period_start_ts, mv, frs, id@) is None);
                    assert(nodes_days(days_in_period as nat, reward_period_start_ts, mv, frs, t) is None);
                    lemma_nodes_days_none(days_in_period as nat, reward_period_start_ts, mv, frs, ids, k as int + 1);
                    assert(provider_outcome(days_in_period as nat, reward_period_start_ts, nodes, mv, frs) is None);
                }
                return None;
            },
        };
        let ghost before = nd@;
        nd.push(rel);
        assert(nd@.map_values(|v: Vec<NodeMetricsDailyProcessed>| processed_views(v@)) =~= before.map_values(
            |v: Vec<NodeMetricsDailyProcessed>| processed_views(v@),
        ).push(processed_views(rel@)));
        k = k + 1;
    }
    assert(ids.take(n as int) =~= ids);
    let ghost ndv = nd@.map_values(|v: Vec<NodeMetricsDailyProcessed>| processed_views(v@));
    // The extrapolated failure rate.
    let mut avgs: Vec<Dec> = Vec::new();
    let mut k: usize = 0;
    assert(ndv.take(0) =~= Seq::<Seq<ProcessedView>>::empty());
    while k < nd.len()
        invariant
            k <= nd@.len(),
            nd@.len() == n,
            nodes == nodes_view(rewardable_nodes@),
            mv == metrics_view(daily_metrics_by_node@),
            frs == rates_view(daily_subnets_fr@),
            ndv == nd@.map_values(|v: Vec<NodeMetricsDailyProcessed>| processed_views(v@)),
            forall|j: int| 0 <= j < nd@.len() ==> rates_wf(processed_views((#[trigger] nd@[j])@)),
            node_averages(ndv.take(k as int)) == Some(avgs@),
            all_wf(avgs@),
            nodes_days(days_in_period as nat, reward_period_start_ts, mv, frs, ids) == Some(ndv),
            provider_outcome(days_in_period as nat, reward_period_start_ts, nodes, mv, frs) == outcome_from_days(ndv, nodes),
        decreases nd.len() - k,
    {
        let ghost t = ndv.take(k as int + 1);
        assert(t.drop_last() =~= ndv.take(k as int));
        assert(t.last() == ndv[k as int]);
        assert(ndv[k as int] == processed_views(nd@[k as int]@));
        let vs = collect_values(&nd[k], false);
        if vs.len() > 0 {
            match avg(vs) {
                Some(a) => {
                    avgs.push(a);
                },
                None => {
                    proof {
                        assert(node_averages(t) is None);
                        lemma_node_averages_none(ndv, k as int + 1);
                        assert(extrapolated(ndv) is None);
                        assert(outcome_from_days(ndv, nodes) is None);
                    }
                    return None;
                },
            }
        }
        k = k + 1;
    }
    assert(ndv.take(nd@.len() as int) =~= ndv);
    let x = avg(avgs)?;
    // The results of each node.
    let full = n <= FULL_REWARDS_MACHINES_LIMIT;
    let mut results: Vec<NodeResults> = Vec::new();
    let mut adjusted: Vec<Dec> = Vec::new();
    let mut k: usize = 0;
    assert(ndv.take(0) =~= Seq::<Seq<ProcessedView>>::empty());
    while k < nd.len()
        invariant
            k <= nd@.len(),
            nd@.len() == n,
            n == rewardable_nodes@.len(),
            full == (nodes.len() <= FULL_REWARDS_MACHINES_LIMIT),
            nodes == nodes_view(rewardable_nodes@),
            mv == metrics_view(daily_metrics_by_node@),
            frs == rates_view(daily_subnets_fr@),
            bases == node_bases(nodes),
            ndv == nd@.map_values(|v: Vec<NodeMetricsDailyProcessed>| processed_views(v@)),
            forall|j: int| 0 <= j < nd@.len() ==> rates_wf(processed_views((#[trigger] nd@[j])@)),
            forall|j: int| 0 <= j < rewardable_nodes@.len() ==> (#[trigger] rewardable_nodes@[j]).1.wf(),
            x.wf(),
            provider_outcome(days_in_period as nat, reward_period_start_ts, nodes, mv, frs) == outcome_with_rate(ndv, nodes, x),
            results@.len() == k,
            adjusted@.len() == k,
            all_wf(adjusted@),
            nodes_outcomes(ndv.take(k as int), bases, x, full) matches Some(outs) && adjusted_of(outs) == adjusted@ && forall|j: int|
                0 <= j < k ==> #[trigger] results_view(results@[j]) == (
                    rewardable_nodes@[j].0@,
                    outs[j].0,
                    outs[j].1,
                    outs[j].2,
                    outs[j].3,
                    outs[j].4,
                    rewardable_nodes@[j].1,
                    outs[j].5,
                ),
        decreases nd.len() - k,
    {
        let ghost t = ndv.take(k as int + 1);
        assert(t.drop_last() =~= ndv.take(k as int));
        assert(t.last() == ndv[k as int]);
        assert(bases[k as int] == rewardable_nodes@[k as int].1);
        let ghost outs0 = nodes_outcomes(ndv.take(k as int), bases, x, full)->0;
        let mut days_k: Vec<NodeMetricsDailyProcessed> = Vec::new();
        let mut j: usize = 0;
        while j < nd[k].len()
            invariant
                j <= nd@[k as int]@.len(),
                k < nd@.len(),
                processed_views(days_k@) == processed_views(nd@[k as int]@).take(j as int),
            decreases nd@[k as int]@.len() - j,
        {
            let c = copy_processed(&nd[k][j]);
            let ghost before = days_k@;
            days_k.push(c);
            assert(processed_views(days_k@) =~= processed_views(before).push(processed_view(c)));
            assert(processed_views(nd@[k as int]@).take(j as int + 1) =~= processed_views(nd@[k as int]@).take(j as int).push(
                processed_view(nd@[k as int]@[j as int]),
            ));
            j = j + 1;
        }
        assert(processed_views(nd@[k as int]@).take(j as int) =~= processed_views(nd@[k as int]@));
        assert(ndv[k as int] == processed_views(days_k@));
        match node_results(&rewardable_nodes[k].0, days_k, x, rewardable_nodes[k].1, full) {
            Some(res) => {
                let ghost o = node_outcome(ndv[k as int], x, bases[k as int], full)->0;
                let ghost rb = results@;
                let ghost ab = adjusted@;
                adjusted.push(res.adjusted_rewards);
                results.push(res);
                proof {
                    let outs1 = outs0.push(o);
                    assert(nodes_outcomes(t, bases, x, full) == Some(outs1));
                    assert(adjusted_of(outs1) =~= ab.push(o.5));
                    assert forall|i: int| 0 <= i < k + 1 implies #[trigger] results_view(results@[i]) == (
                        rewardable_nodes@[i].0@,
                        outs1[i].0,
                        outs1[i].1,
                        outs1[i].2,
                        outs1[i].3,
                        outs1[i].4,
                        rewardable_nodes@[i].1,
                        outs1[i].5,
                    ) by {
                        if i < k {
                            assert(results@[i] == rb[i]);
                        }
                    }
                }
            },
            None => {
                proof {
                    lemma_nodes_outcomes_none(ndv, bases, x, full, k as int + 1);
                }
                return None;
            },
        }
        k = k + 1;
    }
    assert(ndv.take(nd@.len() as int) =~= ndv);
    let ghost outs = nodes_outcomes(ndv, bases, x, full)->0;
    assert(adjusted_of(outs) == adjusted@);
    let total = Operation::Sum(adjusted).execute()?;
    assert(outs.len() == results@.len()) by {
        assert(adjusted_of(outs).len() == outs.len());
    }
    Some(ProviderCalculatorResults { nodes_results: results, extrapolated_fr: x, rewards_total: total })
}

proof fn lemma_nodes_days_none(
    days: nat,
    start: u64,
    m: Seq<(Seq<char>, Seq<NodeMetricsDaily>)>,
    frs: Seq<(Seq<char>, Seq<SubnetDailyFailureRate>)>,
    ids: Seq<Seq<char>>,
    k: int,
)
    requires
        0 <= k <= ids.len(),
        nodes_days(days, start, m, frs, ids.take(k)) is None,
    ensures
        nodes_days(days, start, m, frs, ids) is None,
    decreases ids.len() - k,
{
    if k < ids.len() {
        assert(ids.take(k + 1).drop_last() =~= ids.take(k));
        lemma_nodes_days_none(days, start, m, frs, ids, k + 1);
    } else {
        assert(ids.take(k) =~= ids);
    }
}

proof fn lemma_node_averages_none(nd: Seq<Seq<ProcessedView>>, k: int)
    requires
        0 <= k <= nd.len(),
        node_averages(nd.take(k)) is None,
    ensures
        node_averages(nd) is None,
    decreases nd.len() - k,
{
    if k < nd.len() {
        assert(nd.take(k + 1).drop_last() =~= nd.take(k));
        lemma_node_averages_none(nd, k + 1);
    } else {
        assert(nd.take(k) =~= nd);
    }
}

proof fn lemma_nodes_outcomes_none(nd: Seq<Seq<ProcessedView>>, bases: Seq<Dec>, x: Dec, full: bool, k: int)
    requires
        0 <= k <= nd.len(),
        nodes_outcomes(nd.take(k), bases, x, full) is None,
    ensures
        nodes_outcomes(nd, bases, x, full) is None,
    decreases nd.len() - k,
{
    if k < nd.len() {
        assert(nd.take(k + 1).drop_last() =~= nd.take(k));
        lemma_nodes_outcomes_none(nd, bases, x, full, k + 1);
    } else {
        assert(nd.take(k) =~= nd);
    }
}

/// A rewardable node as plain values: its id, region and node type.
pub type RewardableView = (Seq<char>, Seq<char>, Seq<char>);

/// The rewardable nodes as plain values.
pub open spec fn rewardables_view(v: Seq<(String, String, String)>) -> Seq<RewardableView> {
    v.map_values(|n: (String, String, String)| (n.0@, n.1@, n.2@))
}

/// The rewards table as plain values: the rate of each (region, node type).
pub open spec fn table_view(v: Seq<((String, String), Option<NodeRewardRate>)>) -> Seq<((Seq<char>, Seq<char>), Option<NodeRewardRate>)> {
    v.map_values(|e: ((String, String), Option<NodeRewardRate>)| ((e.0.0@, e.0.1@), e.1))
}

/// The rate of a region and node type in the table (its first entry), if there is one.
pub open spec fn rate_for(t: Seq<((Seq<char>, Seq<char>), Option<NodeRewardRate>)>, region: Seq<char>, ty: Seq<char>) -> Option<
    NodeRewardRate,
> {
    let i = assoc_pos(t, (region, ty));
    if i >= 0 {
        t[i].1
    } else {
        None
    }
}

/// The base rewards of one node of a category with rate `rate`, with its reduction coefficient:
/// the rate's rewards and its coefficient percentage (80 when not set) over 100; without a rate,
/// 1 and 100. `None` when the division fails.
pub open spec fn category_rewards(rate: Option<NodeRewardRate>) -> Option<(Dec, Dec)> {
    match rate {
        Some(r) => {
            let pct: int = match r.reward_coefficient_percent {
                Some(p) => p as int,
                None => 80,
            };
            match crate::dec::spec_div(Dec::spec_new(pct, 0), Dec::spec_new(100, 0)) {
                Some(c) => Some((Dec::spec_new(r.xdr_permyriad_per_node_per_month as int, 0), c)),
                None => None,
            }
        },
        None => Some((Dec::spec_new(1, 0), Dec::spec_new(100, 0))),
    }
}

/// The reduction coefficients and base rewards of the type3 nodes among `nodes` whose region
/// has the key `key`, one entry per node, in order; `None` when a category's rewards fail.
pub open spec fn type3_lists(nodes: Seq<RewardableView>, t: Seq<((Seq<char>, Seq<char>), Option<NodeRewardRate>)>, key: Seq<char>) -> Option<
    (Seq<Dec>, Seq<Dec>),
>
    decreases nodes.len(),
{
    if nodes.len() == 0 {
        Some((Seq::empty(), Seq::empty()))
    } else {
        let n = nodes.last();
        match type3_lists(nodes.drop_last(), t, key) {
            Some((cs, bs)) => if spec_is_type3(n.2) && spec_type3_region_key(n.1) == key {
                match category_rewards(rate_for(t, n.1, n.2)) {
                    Some((b, c)) => Some((cs.push(c), bs.push(b))),
                    None => None,
                }
            } else {
                Some((cs, bs))
            },
            None => None,
        }
    }
}

/// The base rewards of node `n` of a provider with the nodes `nodes`: for a type3 node, the
/// average over the provider's type3 nodes of its region key, reduced node after node by their
/// average coefficient (see [`spec_type3_average`]); for another node, the rewards of its
/// category.
pub open spec fn node_base_rewards(nodes: Seq<RewardableView>, t: Seq<((Seq<char>, Seq<char>), Option<NodeRewardRate>)>, n: RewardableView) -> Option<
    Dec,
> {
    if spec_is_type3(n.2) {
        match type3_lists(nodes, t, spec_type3_region_key(n.1)) {
            Some((cs, bs)) => spec_type3_average(cs, bs),
            None => None,
        }
    } else {
        match category_rewards(rate_for(t, n.1, n.2)) {
            Some((b, _)) => Some(b),
            None => None,
        }
    }
}

/// The base rewards of the first `k` nodes; `None` when one fails.
pub open spec fn bases_of(nodes: Seq<RewardableView>, t: Seq<((Seq<char>, Seq<char>), Option<NodeRewardRate>)>, k: int) -> Option<Seq<Dec>>
    decreases k,
{
    if k <= 0 {
        Some(Seq::empty())
    } else {
        match (bases_of(nodes, t, k - 1), node_base_rewards(nodes, t, nodes[k - 1])) {
            (Some(a), Some(b)) => Some(a.push(b)),
            _ => None,
        }
    }
}

/// The nodes' ids with their base rewards.
pub open spec fn with_bases(nodes: Seq<RewardableView>, bs: Seq<Dec>) -> Seq<(Seq<char>, Dec)> {
    Seq::new(nodes.len(), |i: int| (nodes[i].0, bs[i]))
}

/// The outcome of the whole calculation for a provider with the rewardable nodes `nodes` and the
/// rewards table `t`: the base rewards of each node, then [`provider_outcome`].
pub open spec fn rewards_outcome(
    days: nat,
    start: u64,
    nodes: Seq<RewardableView>,
    t: Seq<((Seq<char>, Seq<char>), Option<NodeRewardRate>)>,
    m: Seq<(Seq<char>, Seq<NodeMetricsDaily>)>,
    frs: Seq<(Seq<char>, Seq<SubnetDailyFailureRate>)>,
) -> Option<(Seq<Dec>, (Seq<(Seq<ProcessedView>, Dec, Dec, Dec, Dec, Dec)>, Dec, Dec))> {
    match bases_of(nodes, t, nodes.len() as int) {
        Some(bs) => match provider_outcome(days, start, with_bases(nodes, bs), m, frs) {
            Some(o) => Some((bs, o)),
            None => None,
        },
        None => None,
    }
}

fn find_table_rate(t: &Vec<((String, String), Option<NodeRewardRate>)>, region: &str, ty: &str) -> (r: Option<NodeRewardRate>)
    ensures
        r == rate_for(table_view(t@), region@, ty@),
{
    let mut i: usize = 0;
    while i < t.len()
        invariant
            i <= t@.len(),
            assoc_pos(table_view(t@.take(i as int)), (region@, ty@)) == -1,
        decreases t.len() - i,
    {
        let ghost tk = t@.take(i as int + 1);
        assert(table_view(tk).drop_last() =~= table_view(t@.take(i as int)));
        if str_eq(t[i].0.0.as_str(), region) && str_eq(t[i].0.1.as_str(), ty) {
            proof {
                crate::subnet_metrics::lemma_assoc_pos_prefix(table_view(t@), i as int + 1, (region@, ty@));
                assert(table_view(t@).take(i as int + 1) =~= table_view(tk));
            }
            return t[i].1;
        }
        i = i + 1;
    }
    assert(t@.take(t@.len() as int) =~= t@);
    None
}

fn category_rewards_of(rate: Option<NodeRewardRate>) -> (r: Option<(Dec, Dec)>)
    ensures
        r == category_rewards(rate),
        r matches Some((b, c)) ==> b.wf() && c.wf(),
{
    match rate {
        Some(x) => {
            let pct: i64 = match x.reward_coefficient_percent {
                Some(p) => p as i64,
                None => 80,
            };
            let c = crate::dec::checked_div(Dec::new(pct, 0), Dec::new(100, 0))?;
            Some((Dec::from_u64(x.xdr_permyriad_per_node_per_month), c))
        },
        None => Some((Dec::new(1, 0), Dec::new(100, 0))),
    }
}

fn type3_lists_of(nodes: &Vec<(String, String, String)>, t: &Vec<((String, String), Option<NodeRewardRate>)>, key: &str) -> (r: Option<
    (Vec<Dec>, Vec<Dec>),
>)
    ensures
        match type3_lists(rewardables_view(nodes@), table_view(t@), key@) {
            Some(l) => r matches Some(x) && x.0@ == l.0 && x.1@ == l.1,
            None => r is None,
        },
        r matches Some(x) ==> all_wf(x.0@) && all_wf(x.1@),
{
    let ghost nv = rewardables_view(nodes@);
    let ghost tv = table_view(t@);
    let mut cs: Vec<Dec> = Vec::new();
    let mut bs: Vec<Dec> = Vec::new();
    let mut i: usize = 0;
    assert(nv.take(0) =~= Seq::<RewardableView>::empty());
    while i < nodes.len()
        invariant
            i <= nodes@.len(),
            nv == rewardables_view(nodes@),
            tv == table_view(t@),
            type3_lists(nv.take(i as int), tv, key@) == Some((cs@, bs@)),
            all_wf(cs@),
            all_wf(bs@),
        decreases nodes.len() - i,
    {
        let ghost tk = nv.take(i as int + 1);
        assert(tk.drop_last() =~= nv.take(i as int));
        assert(tk.last() == nv[i as int]);
        let n = &nodes[i];
        if is_type3(n.2.as_str()) {
            let k = type3_region_key(n.1.as_str());
            if str_eq(k.as_str(), key) {
                match category_rewards_of(find_table_rate(t, n.1.as_str(), n.2.as_str())) {
                    Some((b, c)) => {
                        cs.push(c);
                        bs.push(b);
                    },
                    None => {
                        proof {
                            lemma_type3_lists_none(nv, tv, key@, i as int + 1);
                        }
                        return None;
                    },
                }
            }
        }
        i = i + 1;
    }
    assert(nv.take(nv.len() as int) =~= nv);
    Some((cs, bs))
}

proof fn lemma_type3_lists_none(nodes: Seq<RewardableView>, t: Seq<((Seq<char>, Seq<char>), Option<NodeRewardRate>)>, key: Seq<char>, k: int)
    requires
        0 <= k <= nodes.len(),
        type3_lists(nodes.take(k), t, key) is None,
    ensures
        type3_lists(nodes, t, key) is None,
    decreases nodes.len() - k,
{
    if k < nodes.len() {
        assert(nodes.take(k + 1).drop_last() =~= nodes.take(k));
        lemma_type3_lists_none(nodes, t, key, k + 1);
    } else {
        assert(nodes.take(k) =~= nodes);
    }
}

fn type3_average_of(cs: Vec<Dec>, bs: Vec<Dec>) -> (r: Option<Dec>)
    requires
        all_wf(cs@),
        all_wf(bs@),
    ensures
        r == spec_type3_average(cs@, bs@),
        r matches Some(x) ==> x.wf(),
{
    let clen = Dec::from_u64(cs.len() as u64);
    let len = Dec::from_u64(bs.len() as u64);
    let n = bs.len();
    let ghost cv = cs@;
    let ghost bv = bs@;
    let c_sum = Operation::Sum(cs).execute();
    let r_sum = Operation::Sum(bs).execute();
    match (c_sum, r_sum) {
        (Some(c), Some(rs)) => match (crate::dec::checked_div(c, clen), crate::dec::checked_div(rs, len)) {
            (Some(ca), Some(ra)) => match type3_running(ra, ca, n) {
                Some((acc, _)) => crate::dec::checked_div(acc, len),
                None => None,
            },
            _ => None,
        },
        _ => None,
    }
}

/// The base rewards of each of the rewardable nodes `nodes` (see [`node_base_rewards`]); `None`
/// when one fails.
pub fn base_rewards_of(nodes: &Vec<(String, String, String)>, t: &Vec<((String, String), Option<NodeRewardRate>)>) -> (r: Option<Vec<Dec>>)
    ensures
        match bases_of(rewardables_view(nodes@), table_view(t@), nodes@.len() as int) {
            Some(bs) => r matches Some(v) && v@ == bs,
            None => r is None,
        },
        r matches Some(v) ==> all_wf(v@),
{
    let ghost nv = rewardables_view(nodes@);
    let ghost tv = table_view(t@);
    let mut out: Vec<Dec> = Vec::new();
    let mut i: usize = 0;
    while i < nodes.len()
        invariant
            i <= nodes@.len(),
            nv == rewardables_view(nodes@),
            tv == table_view(t@),
            bases_of(nv, tv, i as int) == Some(out@),
            all_wf(out@),
        decreases nodes.len() - i,
    {
        let n = &nodes[i];
        assert(nv[i as int] == (n.0@, n.1@, n.2@));
        let b = if is_type3(n.2.as_str()) {
            let key = type3_region_key(n.1.as_str());
            match type3_lists_of(nodes, t, key.as_str()) {
                Some((cs, bs)) => type3_average_of(cs, bs),
                None => None,
            }
        } else {
            match category_rewards_of(find_table_rate(t, n.1.as_str(), n.2.as_str())) {
                Some((b, _)) => Some(b),
                None => None,
            }
        };
        match b {
            Some(x) => {
                out.push(x);
            },
            None => {
                proof {
                    lemma_bases_of_none(nv, tv, i as int + 1);
                }
                return None;
            },
        }
        i = i + 1;
    }
    Some(out)
}

proof fn lemma_nodes_days_len(
    days: nat,
    start: u64,
    m: Seq<(Seq<char>, Seq<NodeMetricsDaily>)>,
    frs: Seq<(Seq<char>, Seq<SubnetDailyFailureRate>)>,
    ids: Seq<Seq<char>>,
)
    requires
        nodes_days(days, start, m, frs, ids) is Some,
    ensures
        nodes_days(days, start, m, frs, ids)->0.len() == ids.len(),
    decreases ids.len(),
{
    if ids.len() > 0 {
        lemma_nodes_days_len(days, start, m, frs, ids.drop_last());
    }
}

proof fn lemma_nodes_outcomes_len(nd: Seq<Seq<ProcessedView>>, bases: Seq<Dec>, x: Dec, full: bool)
    requires
        nodes_outcomes(nd, bases, x, full) is Some,
    ensures
        nodes_outcomes(nd, bases, x, full)->0.len() == nd.len(),
    decreases nd.len(),
{
    if nd.len() > 0 {
        lemma_nodes_outcomes_len(nd.drop_last(), bases, x, full);
    }
}

proof fn lemma_bases_of_len(nodes: Seq<RewardableView>, t: Seq<((Seq<char>, Seq<char>), Option<NodeRewardRate>)>, k: int)
    requires
        0 <= k,
        bases_of(nodes, t, k) is Some,
    ensures
        bases_of(nodes, t, k)->0.len() == k,
    decreases k,
{
    if k > 0 {
        lemma_bases_of_len(nodes, t, k - 1);
    }
}

proof fn lemma_bases_of_none(nodes: Seq<RewardableView>, t: Seq<((Seq<char>, Seq<char>), Option<NodeRewardRate>)>, k: int)
    requires
        0 <= k <= nodes.len(),
        bases_of(nodes, t, k) is None,
    ensures
        bases_of(nodes, t, nodes.len() as int) is None,
    decreases nodes.len() - k,
{
    if k < nodes.len() {
        lemma_bases_of_none(nodes, t, k + 1);
    }
}


/// The calculation for a node provider with the rewardable nodes `rewardable_nodes` (id, region,
/// node type) and the rewards table `rewards_table`, over the `days_in_period` days of the reward
/// period from `reward_period_start_ts`, from the nodes' daily metrics `daily_metrics_by_node` and
/// the subnets' daily failure rates `daily_subnets_fr` (see [`rewards_outcome`]): each node's base
/// rewards (see [`node_base_rewards`]), then the results of [`calculate_rewards_from_bases`].
/// `None` when a step overflows.
pub fn calculate_node_provider_rewards(
    days_in_period: u64,
    reward_period_start_ts: u64,
    rewardable_nodes: &Vec<(String, String, String)>,
    rewards_table: &Vec<((String, String), Option<NodeRewardRate>)>,
    daily_metrics_by_node: &Vec<(String, Vec<NodeMetricsDaily>)>,
    daily_subnets_fr: &Vec<(String, Vec<SubnetDailyFailureRate>)>,
) -> (r: Option<ProviderCalculatorResults>)
    requires
        aligned_in_range(reward_period_start_ts + days_in_period * NANOS_PER_DAY),
        metrics_fit(metrics_view(daily_metrics_by_node@)),
        forall|k: int|
            0 <= k < rewardable_nodes@.len() ==> subnet_rates_known(
                metrics_in_period(
                    days_in_period as nat,
                    reward_period_start_ts,
                    metrics_of(metrics_view(daily_metrics_by_node@), (#[trigger] rewardable_nodes@[k]).0@),
                ),
                rates_view(daily_subnets_fr@),
            ),
    ensures
        match rewards_outcome(
            days_in_period as nat,
            reward_period_start_ts,
            rewardables_view(rewardable_nodes@),
            table_view(rewards_table@),
            metrics_view(daily_metrics_by_node@),
            rates_view(daily_subnets_fr@),
        ) {
            Some((bs, o)) => r matches Some(res) && res.extrapolated_fr == o.1 && res.rewards_total == o.2 && res.nodes_results@.len()
                == o.0.len() && forall|k: int|
                0 <= k < o.0.len() ==> #[trigger] results_view(res.nodes_results@[k]) == (
                    rewardable_nodes@[k].0@,
                    o.0[k].0,
                    o.0[k].1,
                    o.0[k].2,
                    o.0[k].3,
                    o.0[k].4,
                    bs[k],
                    o.0[k].5,
                ),
            None => r is None,
        },
{
    let ghost nv = rewardables_view(rewardable_nodes@);
    let bases = base_rewards_of(rewardable_nodes, rewards_table)?;
    let ghost bs = bases@;
    proof {
        lemma_bases_of_len(nv, table_view(rewards_table@), nv.len() as int);
    }
    let mut with: Vec<(String, Dec)> = Vec::new();
    let mut i: usize = 0;
    while i < rewardable_nodes.len()
        invariant
            i <= rewardable_nodes@.len(),
            nv == rewardables_view(rewardable_nodes@),
            bases@ == bs,
            bs.len() == nv.len(),
            all_wf(bs),
            with@.len() == i,
            forall|j: int| 0 <= j < i ==> (#[trigger] with@[j]).0@ == rewardable_nodes@[j].0@ && with@[j].1 == bs[j],
        decreases rewardable_nodes.len() - i,
    {
        with.push((rewardable_nodes[i].0.clone(), bases[i]));
        i = i + 1;
    }
    assert(nodes_view(with@) =~= with_bases(nv, bs));
    assert forall|k: int| 0 <= k < with@.len() implies (#[trigger] with@[k]).1.wf() && subnet_rates_known(
        metrics_in_period(days_in_period as nat, reward_period_start_ts, metrics_of(metrics_view(daily_metrics_by_node@), with@[k].0@)),
        rates_view(daily_subnets_fr@),
    ) by {
        assert(with@[k].0@ == rewardable_nodes@[k].0@);
        assert(bs[k].wf());
    }
    let r = calculate_rewards_from_bases(days_in_period, reward_period_start_ts, &with, daily_metrics_by_node, daily_subnets_fr);
    proof {
        if r is Some {
            let res = r->0;
            let o = provider_outcome(
                days_in_period as nat,
                reward_period_start_ts,
                nodes_view(with@),
                metrics_view(daily_metrics_by_node@),
                rates_view(daily_subnets_fr@),
            )->0;
            let ids = node_ids(nodes_view(with@));
            let mv = metrics_view(daily_metrics_by_node@);
            let frs = rates_view(daily_subnets_fr@);
            lemma_nodes_days_len(days_in_period as nat, reward_period_start_ts, mv, frs, ids);
            let nd = nodes_days(days_in_period as nat, reward_period_start_ts, mv, frs, ids)->0;
            let x = extrapolated(nd)->0;
            lemma_nodes_outcomes_len(nd, node_bases(nodes_view(with@)), x, nodes_view(with@).len() <= FULL_REWARDS_MACHINES_LIMIT);
            assert(o.0.len() == with@.len());
            assert forall|k: int| 0 <= k < o.0.len() implies #[trigger] results_view(res.nodes_results@[k]) == (
                rewardable_nodes@[k].0@,
                o.0[k].0,
                o.0[k].1,
                o.0[k].2,
                o.0[k].3,
                o.0[k].4,
                bs[k],
                o.0[k].5,
            ) by {
                assert(results_view(res.nodes_results@[k]) == (
                    with@[k].0@,
                    o.0[k].0,
                    o.0[k].1,
                    o.0[k].2,
                    o.0[k].3,
                    o.0[k].4,
                    with@[k].1,
                    o.0[k].5,
                ));
            }
        }
    }
    r
}

/// The rewards of the nodes in an outcome (none without one).
pub open spec fn rewards_of(o: Option<(Seq<(Seq<ProcessedView>, Dec, Dec, Dec, Dec, Dec)>, Dec, Dec)>) -> Seq<Dec> {
    match o {
        Some(x) => adjusted_of(x.0),
        None => Seq::empty(),
    }
}

/// A provider with at most [`FULL_REWARDS_MACHINES_LIMIT`] nodes gets the full base rewards of
/// each of its nodes, whatever their performance.
pub proof fn lemma_small_providers_get_full_rewards(
    days: nat,
    start: u64,
    nodes: Seq<(Seq<char>, Dec)>,
    m: Seq<(Seq<char>, Seq<NodeMetricsDaily>)>,
    frs: Seq<(Seq<char>, Seq<SubnetDailyFailureRate>)>,
)
    requires
        nodes.len() <= FULL_REWARDS_MACHINES_LIMIT,
        provider_outcome(days, start, nodes, m, frs) is Some,
    ensures
        forall|k: int|
            0 <= k < rewards_of(provider_outcome(days, start, nodes, m, frs)).len() ==> #[trigger] rewards_of(
                provider_outcome(days, start, nodes, m, frs),
            )[k] == nodes[k].1,
        rewards_of(provider_outcome(days, start, nodes, m, frs)).len() == nodes.len(),
{
    let ids = node_ids(nodes);
    lemma_nodes_days_len(days, start, m, frs, ids);
    let nd = nodes_days(days, start, m, frs, ids)->0;
    let x = extrapolated(nd)->0;
    assert(nd.take(nd.len() as int) =~= nd);
    assert(nodes_outcomes(nd, node_bases(nodes), x, true) is Some);
    lemma_outcomes_full(nd, node_bases(nodes), x, nd.len() as int);
    let outs = nodes_outcomes(nd, node_bases(nodes), x, true)->0;
    assert(rewards_of(provider_outcome(days, start, nodes, m, frs)) == adjusted_of(outs));
    assert forall|k: int| 0 <= k < adjusted_of(outs).len() implies #[trigger] adjusted_of(outs)[k] == nodes[k].1 by {
        assert(outs[k].5 == node_bases(nodes)[k]);
    }
}

proof fn lemma_outcomes_full(nd: Seq<Seq<ProcessedView>>, bases: Seq<Dec>, x: Dec, k: int)
    requires
        0 <= k <= nd.len(),
        nodes_outcomes(nd.take(k), bases, x, true) is Some,
    ensures
        forall|j: int| 0 <= j < k ==> (#[trigger] nodes_outcomes(nd.take(k), bases, x, true)->0[j]).5 == bases[j],
        nodes_outcomes(nd.take(k), bases, x, true)->0.len() == k,
    decreases k,
{
    if k > 0 {
        let t = nd.take(k);
        assert(t.drop_last() =~= nd.take(k - 1));
        lemma_outcomes_full(nd, bases, x, k - 1);
    } else {
        assert(nd.take(0) =~= Seq::<Seq<ProcessedView>>::empty());
    }
}

/// A failure rate made relative to its subnet's is never negative.
pub proof fn lemma_relative_fr_not_negative(v: Dec, s: Dec)
    requires
        relative_fr(v, s) is Some,
    ensures
        relative_fr(v, s)->0.mantissa >= 0,
{
    let d = spec_sub(v, s)->0;
    assert(crate::dec::pow10(0) == 1);
    if !spec_lt(d, zero()) {
        assert(d.mantissa * crate::dec::pow10(0) >= 0 * crate::dec::pow10(d.scale as nat));
    }
}

/// A node with no relative failure rate does not count in the nodes' averages: inserting its days
/// anywhere among the others leaves the averages as they were.
pub proof fn lemma_node_averages_skip_unassigned(nd: Seq<Seq<ProcessedView>>, i: int, p: Seq<ProcessedView>)
    requires
        0 <= i <= nd.len(),
        relative_values(p).len() == 0,
    ensures
        node_averages(nd.insert(i, p)) == node_averages(nd),
    decreases nd.len(),
{
    if i == nd.len() {
        assert(nd.insert(i, p).drop_last() =~= nd);
        assert(nd.insert(i, p).last() == p);
    } else {
        let q = nd.insert(i, p);
        assert(q.drop_last() =~= nd.drop_last().insert(i, p));
        assert(q.last() == nd.last());
        lemma_node_averages_skip_unassigned(nd.drop_last(), i, p);
    }
}

/// The extrapolated failure rate is the average over the nodes that have relative failure rates:
/// adding, anywhere, a node without any leaves it unchanged.
pub proof fn lemma_extrapolated_skips_unassigned(nd: Seq<Seq<ProcessedView>>, i: int, p: Seq<ProcessedView>)
    requires
        0 <= i <= nd.len(),
        relative_values(p).len() == 0,
    ensures
        extrapolated(nd.insert(i, p)) == extrapolated(nd),
{
    lemma_node_averages_skip_unassigned(nd, i, p);
}

/// With a single node that has relative failure rates, the extrapolated failure rate is the
/// average of that node's average relative failure rate alone, whatever other nodes without
/// relative failure rates there are.
pub proof fn lemma_extrapolated_of_one_assigned(nd: Seq<Seq<ProcessedView>>, j: int)
    requires
        0 <= j < nd.len(),
        relative_values(nd[j]).len() > 0,
        spec_avg(relative_values(nd[j])) is Some,
        forall|k: int| 0 <= k < nd.len() && k != j ==> relative_values(#[trigger] nd[k]).len() == 0,
    ensures
        extrapolated(nd) == spec_avg(seq![spec_avg(relative_values(nd[j]))->0]),
    decreases nd.len(),
{
    lemma_one_assigned_averages(nd, j, nd.len() as int);
    assert(nd.take(nd.len() as int) =~= nd);
}

proof fn lemma_no_assigned_averages(nd: Seq<Seq<ProcessedView>>, k: int)
    requires
        0 <= k <= nd.len(),
        forall|i: int| 0 <= i < k ==> relative_values(#[trigger] nd[i]).len() == 0,
    ensures
        node_averages(nd.take(k)) == Some(Seq::<Dec>::empty()),
    decreases k,
{
    if k > 0 {
        assert(nd.take(k).drop_last() =~= nd.take(k - 1));
        assert(nd.take(k).last() == nd[k - 1]);
        lemma_no_assigned_averages(nd, k - 1);
    } else {
        assert(nd.take(0) =~= Seq::<Seq<ProcessedView>>::empty());
    }
}

proof fn lemma_one_assigned_averages(nd: Seq<Seq<ProcessedView>>, j: int, k: int)
    requires
        0 <= j < nd.len(),
        j < k <= nd.len(),
        relative_values(nd[j]).len() > 0,
        spec_avg(relative_values(nd[j])) is Some,
        forall|i: int| 0 <= i < nd.len() && i != j ==> relative_values(#[trigger] nd[i]).len() == 0,
    ensures
        node_averages(nd.take(k)) == Some(seq![spec_avg(relative_values(nd[j]))->0]),
    decreases k,
{
    assert(nd.take(k).drop_last() =~= nd.take(k - 1));
    assert(nd.take(k).last() == nd[k - 1]);
    if k - 1 == j {
        lemma_no_assigned_averages(nd, j);
        assert(Seq::<Dec>::empty().push(spec_avg(relative_values(nd[j]))->0) =~= seq![spec_avg(relative_values(nd[j]))->0]);
    } else {
        lemma_one_assigned_averages(nd, j, k - 1);
    }
}

/// Days on which the node was never assigned stay as they are when made relative, and give no
/// relative failure rate.
proof fn lemma_unassigned_days(ps: Seq<ProcessedView>, frs: Seq<(Seq<char>, Seq<SubnetDailyFailureRate>)>)
    requires
        forall|i: int| 0 <= i < ps.len() ==> (#[trigger] ps[i]).1 is None && ps[i].4 is Undefined,
    ensures
        relative_days(ps, frs) == Some(ps),
        relative_values(ps).len() == 0,
    decreases ps.len(),
{
    if ps.len() > 0 {
        lemma_unassigned_days(ps.drop_last(), frs);
        assert(ps.drop_last().push(ps.last()) =~= ps);
    }
}

/// The days of a node in `ids` inserted at `i`: those of the others, with its own inserted.
proof fn lemma_nodes_days_insert(
    days: nat,
    start: u64,
    m: Seq<(Seq<char>, Seq<NodeMetricsDaily>)>,
    frs: Seq<(Seq<char>, Seq<SubnetDailyFailureRate>)>,
    ids: Seq<Seq<char>>,
    i: int,
    id: Seq<char>,
)
    requires
        0 <= i <= ids.len(),
        nodes_days(days, start, m, frs, ids) is Some,
        node_days(days, start, m, frs, id) is Some,
    ensures
        nodes_days(days, start, m, frs, ids.insert(i, id)) == Some(
            nodes_days(days, start, m, frs, ids)->0.insert(i, node_days(days, start, m, frs, id)->0),
        ),
    decreases ids.len(),
{
    lemma_nodes_days_len(days, start, m, frs, ids);
    let q = ids.insert(i, id);
    let d = node_days(days, start, m, frs, id)->0;
    if i == ids.len() {
        assert(q.drop_last() =~= ids);
        assert(q.last() == id);
        let nd = nodes_days(days, start, m, frs, ids)->0;
        assert(nd.push(d) =~= nd.insert(i, d));
    } else {
        assert(q.drop_last() =~= ids.drop_last().insert(i, id));
        assert(q.last() == ids.last());
        lemma_nodes_days_insert(days, start, m, frs, ids.drop_last(), i, id);
        lemma_nodes_days_len(days, start, m, frs, ids.drop_last());
        let a = nodes_days(days, start, m, frs, ids.drop_last())->0;
        let b = node_days(days, start, m, frs, ids.last())->0;
        assert(nodes_days(days, start, m, frs, ids)->0 == a.push(b));
        assert(a.insert(i, d).push(b) =~= a.push(b).insert(i, d));
    }
}

/// A rewardable node without any metrics does not change the extrapolated failure rate of its
/// provider: inserted anywhere among the provider's nodes, the nodes' days still compute and give
/// the same extrapolated failure rate.
pub proof fn lemma_node_without_metrics_leaves_extrapolated(
    days: nat,
    start: u64,
    nodes: Seq<(Seq<char>, Dec)>,
    i: int,
    node: (Seq<char>, Dec),
    m: Seq<(Seq<char>, Seq<NodeMetricsDaily>)>,
    frs: Seq<(Seq<char>, Seq<SubnetDailyFailureRate>)>,
)
    requires
        0 <= i <= nodes.len(),
        metrics_of(m, node.0) is None,
        nodes_days(days, start, m, frs, node_ids(nodes)) is Some,
    ensures
        nodes_days(days, start, m, frs, node_ids(nodes.insert(i, node))) is Some,
        extrapolated(nodes_days(days, start, m, frs, node_ids(nodes.insert(i, node)))->0) == extrapolated(
            nodes_days(days, start, m, frs, node_ids(nodes))->0,
        ),
{
    let ps = metrics_in_period(days, start, None);
    lemma_unassigned_days(ps, frs);
    assert(node_days(days, start, m, frs, node.0) == Some(ps));
    assert(node_ids(nodes.insert(i, node)) =~= node_ids(nodes).insert(i, node.0));
    lemma_nodes_days_len(days, start, m, frs, node_ids(nodes));
    lemma_nodes_days_insert(days, start, m, frs, node_ids(nodes), i, node.0);
    lemma_extrapolated_skips_unassigned(nodes_days(days, start, m, frs, node_ids(nodes))->0, i, ps);
}

} // verus!
