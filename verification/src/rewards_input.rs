//! The input of the reward calculation: the daily metrics of nodes, with their failure rates,
//! and the checks that the metrics fit the reward period.
use vstd::prelude::*;
use crate::dec::{checked_div, spec_div, Dec};
use crate::reward_period::{aligned_in_range, spec_day_end, DayEndNanos, RewardPeriod, RewardPeriodError, TimestampNanos};
use crate::rules::texts;
use crate::subnet::str_eq;

verus! {

/// The metrics of a node on a day: the day, the subnet it was assigned to, its blocks proposed
/// and failed, and its failure rate.
#[derive(Debug, Clone)]
pub struct NodeMetricsDaily {
    pub ts: DayEndNanos,
    pub subnet_assigned: String,
    pub num_blocks_proposed: u64,
    pub num_blocks_failed: u64,
    pub failure_rate: Dec,
}

/// The failure rate of a node that proposed `proposed` blocks and failed `failed`: the failed
/// blocks over all blocks (zero without blocks), as `rust_decimal` divides.
pub open spec fn failure_rate_of(proposed: u64, failed: u64) -> Option<Dec> {
    if proposed + failed == 0 {
        Some(Dec::spec_new(0, 0))
    } else {
        spec_div(Dec::spec_new(failed as int, 0), Dec::spec_new(proposed + failed, 0))
    }
}

impl NodeMetricsDaily {
    /// The metrics of a node on the day of `ts` (see [`failure_rate_of`]); none when the
    /// division gives no result.
    pub fn new(ts: TimestampNanos, subnet_assigned: String, num_blocks_proposed: u64, num_blocks_failed: u64) -> (r: Option<Self>)
        requires
            num_blocks_proposed + num_blocks_failed <= u64::MAX,
            aligned_in_range(ts as int),
        ensures
            match failure_rate_of(num_blocks_proposed, num_blocks_failed) {
                None => r is None,
                Some(fr) => r matches Some(m) && {
                    &&& m.ts.0 as int == spec_day_end(ts as int)
                    &&& m.subnet_assigned == subnet_assigned
                    &&& m.num_blocks_proposed == num_blocks_proposed
                    &&& m.num_blocks_failed == num_blocks_failed
                    &&& m.failure_rate == fr
                    &&& fr.wf()
                },
            },
    {
        let total = num_blocks_proposed + num_blocks_failed;
        let failure_rate = if total == 0 {
            Dec::zero()
        } else {
            match checked_div(Dec::from_u64(num_blocks_failed), Dec::from_u64(total)) {
                Some(d) => d,
                None => {
                    return None;
                },
            }
        };
        Some(
            NodeMetricsDaily {
                ts: DayEndNanos::from(ts),
                subnet_assigned,
                num_blocks_proposed,
                num_blocks_failed,
                failure_rate,
            },
        )
    }
}

/// Why the input of the reward calculation was refused.
#[derive(Debug, Clone, PartialEq, Eq)]
pub enum RewardCalculationError {
    RewardPeriodError(RewardPeriodError),
    MissingRequiredField(String),
    EmptyNodes,
    NodeNotInRewardables(String),
    NodeMetricsOutOfRange { node_id: String, timestamp: TimestampNanos, reward_period: RewardPeriod },
    DuplicateMetrics(String),
}

/// Whether the day that ends at `day_end` lies in the reward period.
pub open spec fn in_period(rp: RewardPeriod, day_end: u64) -> bool {
    rp.from.0.0 <= day_end && day_end <= rp.to.0.0
}

/// The position of the first of the metrics, from `i` on, outside the reward period, or -1.
pub open spec fn first_out_of_range(rp: RewardPeriod, es: Seq<NodeMetricsDaily>, i: int) -> int
    decreases es.len() - i,
{
    if i < 0 || i >= es.len() {
        -1
    } else if !in_period(rp, es[i].ts.0) {
        i
    } else {
        first_out_of_range(rp, es, i + 1)
    }
}

/// Whether two of the metrics are for the same day and the same subnet.
pub open spec fn has_duplicates(es: Seq<NodeMetricsDaily>) -> bool {
    exists|i: int, j: int|
        0 <= i < j < es.len() && #[trigger] es[i].ts == #[trigger] es[j].ts && es[i].subnet_assigned@ == es[j].subnet_assigned@
}

/// Whether the metrics of a node fit the reward period and hold one entry per day and subnet.
pub open spec fn node_metrics_valid(rp: RewardPeriod, es: Seq<NodeMetricsDaily>) -> bool {
    first_out_of_range(rp, es, 0) == -1 && !has_duplicates(es)
}

/// The position of the first node, from `k` on, whose metrics are not valid, or -1.
pub open spec fn first_invalid_node(rp: RewardPeriod, m: Seq<(String, Vec<NodeMetricsDaily>)>, k: int) -> int
    decreases m.len() - k,
{
    if k < 0 || k >= m.len() {
        -1
    } else if !node_metrics_valid(rp, m[k].1@) {
        k
    } else {
        first_invalid_node(rp, m, k + 1)
    }
}

/// The error for the first node whose metrics are not valid: its first metrics outside the
/// reward period, else its metrics for the same day and subnet.
pub open spec fn is_validation_error(rp: RewardPeriod, m: Seq<(String, Vec<NodeMetricsDaily>)>, e: RewardCalculationError) -> bool {
    let k = first_invalid_node(rp, m, 0);
    let es = m[k].1@;
    let i = first_out_of_range(rp, es, 0);
    &&& 0 <= k < m.len()
    &&& if i >= 0 {
        e matches RewardCalculationError::NodeMetricsOutOfRange { node_id, timestamp, reward_period } && node_id@ == m[k].0@
            && timestamp == es[i].ts.0 && reward_period == rp
    } else {
        e matches RewardCalculationError::DuplicateMetrics(n) && n@ == m[k].0@
    }
}

/// The first of the metrics outside the reward period (see [`first_out_of_range`]).
fn out_of_range_at(rp: &RewardPeriod, es: &Vec<NodeMetricsDaily>) -> (r: Option<usize>)
    ensures
        match r {
            Some(i) => i as int == first_out_of_range(*rp, es@, 0) && i < es@.len(),
            None => first_out_of_range(*rp, es@, 0) == -1,
        },
{
    let mut i: usize = 0;
    while i < es.len()
        invariant
            i <= es@.len(),
            first_out_of_range(*rp, es@, 0) == first_out_of_range(*rp, es@, i as int),
        decreases es.len() - i,
    {
        let d = es[i].ts.get();
        if !(rp.from.0.0 <= d && d <= rp.to.0.0) {
            return Some(i);
        }
        i = i + 1;
    }
    None
}

/// Whether two of the metrics are for the same day and subnet (see [`has_duplicates`]).
fn duplicates_in(es: &Vec<NodeMetricsDaily>) -> (r: bool)
    ensures
        r == has_duplicates(es@),
{
    let n = es.len();
    let mut j: usize = 0;
    while j < n
        invariant
            j <= n,
            n == es@.len(),
            forall|a: int, b: int|
                0 <= a < b < j ==> !(#[trigger] es@[a].ts == #[trigger] es@[b].ts && es@[a].subnet_assigned@ == es@[b].subnet_assigned@),
        decreases n - j,
    {
        let mut i: usize = 0;
        while i < j
            invariant
                i <= j,
                j < n,
                n == es@.len(),
                forall|a: int, b: int|
                    0 <= a < b < j ==> !(#[trigger] es@[a].ts == #[trigger] es@[b].ts && es@[a].subnet_assigned@ == es@[b].subnet_assigned@),
                forall|a: int| 0 <= a < i ==> !(#[trigger] es@[a].ts == es@[j as int].ts && es@[a].subnet_assigned@ == es@[j as int].subnet_assigned@),
            decreases j - i,
        {
            if es[i].ts.0 == es[j].ts.0 && str_eq(es[i].subnet_assigned.as_str(), es[j].subnet_assigned.as_str()) {
                assert(es@[i as int].ts == es@[j as int].ts);
                return true;
            }
            i = i + 1;
        }
        j = j + 1;
    }
    false
}

/// Checks that the metrics of every node fit the reward period and hold one entry per day and
/// subnet (see [`is_validation_error`]).
pub fn validate_input(reward_period: &RewardPeriod, metrics_by_node: &Vec<(String, Vec<NodeMetricsDaily>)>) -> (r: Result<(), RewardCalculationError>)
    ensures
        (r is Ok) == (first_invalid_node(*reward_period, metrics_by_node@, 0) == -1),
        r matches Err(e) ==> is_validation_error(*reward_period, metrics_by_node@, e),
{
    let mut k: usize = 0;
    while k < metrics_by_node.len()
        invariant
            k <= metrics_by_node@.len(),
            first_invalid_node(*reward_period, metrics_by_node@, 0) == first_invalid_node(*reward_period, metrics_by_node@, k as int),
        decreases metrics_by_node.len() - k,
    {
        let es = &metrics_by_node[k].1;
        match out_of_range_at(reward_period, es) {
            Some(i) => {
                return Err(
                    RewardCalculationError::NodeMetricsOutOfRange {
                        node_id: metrics_by_node[k].0.clone(),
                        timestamp: es[i].ts.get(),
                        reward_period: RewardPeriod { from: reward_period.from, to: reward_period.to },
                    },
                );
            },
            None => {},
        }
        if duplicates_in(es) {
            return Err(RewardCalculationError::DuplicateMetrics(metrics_by_node[k].0.clone()));
        }
        k = k + 1;
    }
    Ok(())
}

/// The failure rate of a subnet on a day.
#[derive(Debug, Clone, Copy)]
pub struct SubnetDailyFailureRate {
    pub ts: DayEndNanos,
    pub value: Dec,
}

/// The metrics of all nodes, node after node.
pub open spec fn all_entries(m: Seq<(String, Vec<NodeMetricsDaily>)>) -> Seq<NodeMetricsDaily>
    decreases m.len(),
{
    if m.len() == 0 {
        Seq::empty()
    } else {
        all_entries(m.drop_last()) + m.last().1@
    }
}

/// The subnets of the metrics, each once, in order of first appearance.
pub open spec fn subnets_of(es: Seq<NodeMetricsDaily>) -> Seq<Seq<char>>
    decreases es.len(),
{
    if es.len() == 0 {
        Seq::empty()
    } else {
        let d = subnets_of(es.drop_last());
        if d.contains(es.last().subnet_assigned@) {
            d
        } else {
            d.push(es.last().subnet_assigned@)
        }
    }
}

/// `d`, increasing, with `t` added where it is not yet.
pub open spec fn insert_day(d: Seq<u64>, t: u64) -> Seq<u64> {
    if d.contains(t) {
        d
    } else {
        d.insert(day_pos(d, t, d.len() as int), t)
    }
}

/// Where day `t` goes among the increasing days `d`, looking backwards from `pos`.
pub open spec fn day_pos(d: Seq<u64>, t: u64, pos: int) -> int
    decreases pos,
{
    if pos <= 0 {
        0
    } else if d[pos - 1] > t {
        day_pos(d, t, pos - 1)
    } else {
        pos
    }
}

/// The days on which subnet `sn` has metrics, each once, increasing.
pub open spec fn days_of(es: Seq<NodeMetricsDaily>, sn: Seq<char>) -> Seq<u64>
    decreases es.len(),
{
    if es.len() == 0 {
        Seq::empty()
    } else {
        let d = days_of(es.drop_last(), sn);
        if es.last().subnet_assigned@ == sn {
            insert_day(d, es.last().ts.0)
        } else {
            d
        }
    }
}

/// The failure rates of the nodes assigned to subnet `sn` on the day that ends at `t`, in order.
pub open spec fn rates_for(es: Seq<NodeMetricsDaily>, sn: Seq<char>, t: u64) -> Seq<Dec>
    decreases es.len(),
{
    if es.len() == 0 {
        Seq::empty()
    } else {
        let r = rates_for(es.drop_last(), sn, t);
        if es.last().subnet_assigned@ == sn && es.last().ts.0 == t {
            r.push(es.last().failure_rate)
        } else {
            r
        }
    }
}

/// The rates ordered by value, keeping the order of equal values (a stable insertion sort).
pub open spec fn by_value(s: Seq<Dec>) -> Seq<Dec>
    decreases s.len(),
{
    if s.len() == 0 {
        Seq::empty()
    } else {
        let o = by_value(s.drop_last());
        o.insert(value_pos(o, s.last(), o.len() as int), s.last())
    }
}

/// Where rate `x` goes among `o`, looking backwards from `pos`: after the last rate not above it.
pub open spec fn value_pos(o: Seq<Dec>, x: Dec, pos: int) -> int
    decreases pos,
{
    if pos <= 0 {
        0
    } else if crate::dec::spec_lt(x, o[pos - 1]) {
        value_pos(o, x, pos - 1)
    } else {
        pos
    }
}

/// The position of the 75th percentile among `n` ordered values: the ceiling of three quarters
/// of `n` (that is `n` less a quarter of `n` rounded down), less one.
pub open spec fn percentile_index(n: int) -> int {
    n - n / 4 - 1
}

/// The failure rate of subnet `sn` on the day that ends at `t`: the 75th percentile of the
/// failure rates of its nodes that day.
pub open spec fn subnet_rate(es: Seq<NodeMetricsDaily>, sn: Seq<char>, t: u64) -> Dec {
    let r = by_value(rates_for(es, sn, t));
    r[percentile_index(r.len() as int)]
}

fn copy_daily(e: &NodeMetricsDaily) -> (r: NodeMetricsDaily)
    ensures
        r == *e,
{
    NodeMetricsDaily {
        ts: e.ts,
        subnet_assigned: e.subnet_assigned.clone(),
        num_blocks_proposed: e.num_blocks_proposed,
        num_blocks_failed: e.num_blocks_failed,
        failure_rate: e.failure_rate,
    }
}

/// The metrics of all nodes in one list (see [`all_entries`]).
fn flatten_entries(m: &Vec<(String, Vec<NodeMetricsDaily>)>) -> (r: Vec<NodeMetricsDaily>)
    ensures
        r@ == all_entries(m@),
{
    let mut out: Vec<NodeMetricsDaily> = Vec::new();
    let mut k: usize = 0;
    assert(all_entries(m@.take(0)) =~= Seq::<NodeMetricsDaily>::empty());
    while k < m.len()
        invariant
            k <= m@.len(),
            out@ == all_entries(m@.take(k as int)),
        decreases m.len() - k,
    {
        let ghost base = out@;
        let es = &m[k].1;
        let mut j: usize = 0;
        assert(base + es@.take(0) =~= base);
        while j < es.len()
            invariant
                j <= es@.len(),
                out@ == base + es@.take(j as int),
            decreases es.len() - j,
        {
            out.push(copy_daily(&es[j]));
            assert(out@ =~= base + es@.take(j as int + 1));
            j = j + 1;
        }
        assert(es@.take(es@.len() as int) =~= es@);
        let ghost t = m@.take(k as int + 1);
        assert(t.drop_last() =~= m@.take(k as int));
        assert(t.last() == m@[k as int]);
        k = k + 1;
    }
    assert(m@.take(m@.len() as int) =~= m@);
    out
}

fn has_text(v: &Vec<String>, t: &str) -> (r: bool)
    ensures
        r == texts(v@).contains(t@),
{
    let mut i: usize = 0;
    while i < v.len()
        invariant
            i <= v@.len(),
            forall|j: int| 0 <= j < i ==> texts(v@)[j] != t@,
        decreases v.len() - i,
    {
        if str_eq(v[i].as_str(), t) {
            assert(texts(v@)[i as int] == t@);
            return true;
        }
        i = i + 1;
    }
    false
}

/// The subnets of the metrics (see [`subnets_of`]).
fn subnets_in(es: &Vec<NodeMetricsDaily>) -> (r: Vec<String>)
    ensures
        texts(r@) == subnets_of(es@),
{
    let mut r: Vec<String> = Vec::new();
    let mut i: usize = 0;
    assert(texts(r@) =~= subnets_of(es@.take(0)));
    while i < es.len()
        invariant
            i <= es@.len(),
            texts(r@) == subnets_of(es@.take(i as int)),
        decreases es.len() - i,
    {
        let ghost t = es@.take(i as int + 1);
        assert(t.drop_last() =~= es@.take(i as int));
        assert(t.last() == es@[i as int]);
        if !has_text(&r, es[i].subnet_assigned.as_str()) {
            let ghost before = r@;
            r.push(es[i].subnet_assigned.clone());
            assert(texts(r@) =~= texts(before).push(es@[i as int].subnet_assigned@));
        }
        i = i + 1;
    }
    assert(es@.take(es@.len() as int) =~= es@);
    r
}

proof fn lemma_day_pos_bounds(d: Seq<u64>, t: u64, pos: int)
    requires
        0 <= pos <= d.len(),
    ensures
        0 <= day_pos(d, t, pos) <= pos,
    decreases pos,
{
    if pos > 0 {
        lemma_day_pos_bounds(d, t, pos - 1);
    }
}

fn add_day(d: &mut Vec<u64>, t: u64)
    ensures
        final(d)@ == insert_day(old(d)@, t),
{
    let mut k: usize = 0;
    while k < d.len()
        invariant
            k <= d@.len(),
            forall|j: int| 0 <= j < k ==> d@[j] != t,
        decreases d.len() - k,
    {
        if d[k] == t {
            assert(d@.contains(t));
            return;
        }
        k = k + 1;
    }
    assert(!d@.contains(t));
    let mut pos = d.len();
    while pos > 0 && d[pos - 1] > t
        invariant
            pos <= d@.len(),
            day_pos(d@, t, d@.len() as int) == day_pos(d@, t, pos as int),
        decreases pos,
    {
        pos = pos - 1;
    }
    proof {
        lemma_day_pos_bounds(d@, t, d@.len() as int);
    }
    d.insert(pos, t);
}

/// The days on which subnet `sn` has metrics (see [`days_of`]).
fn days_in(es: &Vec<NodeMetricsDaily>, sn: &str) -> (r: Vec<u64>)
    ensures
        r@ == days_of(es@, sn@),
{
    let mut d: Vec<u64> = Vec::new();
    let mut i: usize = 0;
    while i < es.len()
        invariant
            i <= es@.len(),
            d@ == days_of(es@.take(i as int), sn@),
        decreases es.len() - i,
    {
        let ghost t = es@.take(i as int + 1);
        assert(t.drop_last() =~= es@.take(i as int));
        assert(t.last() == es@[i as int]);
        if str_eq(es[i].subnet_assigned.as_str(), sn) {
            add_day(&mut d, es[i].ts.0);
        }
        i = i + 1;
    }
    assert(es@.take(es@.len() as int) =~= es@);
    d
}

/// The failure rates of subnet `sn`'s nodes on the day that ends at `t` (see [`rates_for`]).
fn rates_in(es: &Vec<NodeMetricsDaily>, sn: &str, t: u64) -> (r: Vec<Dec>)
    ensures
        r@ == rates_for(es@, sn@, t),
{
    let mut r: Vec<Dec> = Vec::new();
    let mut i: usize = 0;
    while i < es.len()
        invariant
            i <= es@.len(),
            r@ == rates_for(es@.take(i as int), sn@, t),
        decreases es.len() - i,
    {
        let ghost tt = es@.take(i as int + 1);
        assert(tt.drop_last() =~= es@.take(i as int));
        assert(tt.last() == es@[i as int]);
        if str_eq(es[i].subnet_assigned.as_str(), sn) && es[i].ts.0 == t {
            r.push(es[i].failure_rate);
        }
        i = i + 1;
    }
    assert(es@.take(es@.len() as int) =~= es@);
    r
}

proof fn lemma_value_pos_bounds(o: Seq<Dec>, x: Dec, pos: int)
    requires
        0 <= pos <= o.len(),
    ensures
        0 <= value_pos(o, x, pos) <= pos,
    decreases pos,
{
    if pos > 0 {
        lemma_value_pos_bounds(o, x, pos - 1);
    }
}

proof fn lemma_by_value_len(s: Seq<Dec>)
    ensures
        by_value(s).len() == s.len(),
    decreases s.len(),
{
    if s.len() > 0 {
        lemma_by_value_len(s.drop_last());
        lemma_value_pos_bounds(by_value(s.drop_last()), s.last(), s.len() - 1);
    }
}

/// Every rate is a valid decimal.
pub open spec fn all_wf(s: Seq<Dec>) -> bool {
    forall|i: int| 0 <= i < s.len() ==> (#[trigger] s[i]).wf()
}

proof fn lemma_by_value_wf(s: Seq<Dec>)
    requires
        all_wf(s),
    ensures
        all_wf(by_value(s)),
    decreases s.len(),
{
    if s.len() > 0 {
        lemma_by_value_wf(s.drop_last());
        let o = by_value(s.drop_last());
        lemma_by_value_len(s.drop_last());
        lemma_value_pos_bounds(o, s.last(), o.len() as int);
        let q = value_pos(o, s.last(), o.len() as int);
        assert forall|i: int| 0 <= i < by_value(s).len() implies (#[trigger] by_value(s)[i]).wf() by {
            if i < q {
                assert(by_value(s)[i] == o[i]);
            } else if i > q {
                assert(by_value(s)[i] == o[i - 1]);
            }
        }
    }
}

/// The rates ordered by value (see [`by_value`]).
fn sort_by_value(v: &Vec<Dec>) -> (r: Vec<Dec>)
    requires
        all_wf(v@),
    ensures
        r@ == by_value(v@),
{
    let mut out: Vec<Dec> = Vec::new();
    let mut i: usize = 0;
    assert(v@.take(0) =~= Seq::<Dec>::empty());
    while i < v.len()
        invariant
            i <= v@.len(),
            all_wf(v@),
            out@ == by_value(v@.take(i as int)),
            all_wf(out@),
        decreases v.len() - i,
    {
        let ghost t = v@.take(i as int + 1);
        assert(t.drop_last() =~= v@.take(i as int));
        assert(t.last() == v@[i as int]);
        let x = v[i];
        assert(x.wf());
        let mut pos = out.len();
        while pos > 0 && crate::dec::lt(x, out[pos - 1])
            invariant
                pos <= out@.len(),
                all_wf(out@),
                x.wf(),
                value_pos(out@, x, out@.len() as int) == value_pos(out@, x, pos as int),
            decreases pos,
        {
            pos = pos - 1;
        }
        proof {
            lemma_value_pos_bounds(out@, x, out@.len() as int);
            lemma_by_value_len(v@.take(i as int));
        }
        out.insert(pos, x);
        proof {
            assert(all_wf(t)) by {
                assert forall|j: int| 0 <= j < t.len() implies (#[trigger] t[j]).wf() by {
                    assert(t[j] == v@[j]);
                }
            }
            lemma_by_value_wf(t);
        }
        i = i + 1;
    }
    assert(v@.take(v@.len() as int) =~= v@);
    out
}

/// The daily failure rates `v` of subnet `sn`: one per day on which it has metrics, increasing,
/// each the 75th percentile of its nodes' failure rates that day (see [`subnet_rate`]).
pub open spec fn rates_of_subnet(v: Seq<SubnetDailyFailureRate>, es: Seq<NodeMetricsDaily>, sn: Seq<char>) -> bool {
    let days = days_of(es, sn);
    &&& v.len() == days.len()
    &&& forall|j: int| 0 <= j < v.len() ==> (#[trigger] v[j]).ts.0 == days[j] && v[j].value == subnet_rate(es, sn, days[j])
}

proof fn lemma_insert_day_contains(d: Seq<u64>, t: u64, x: u64)
    requires
        insert_day(d, t).contains(x),
    ensures
        d.contains(x) || x == t,
{
    if !d.contains(t) {
        let q = day_pos(d, t, d.len() as int);
        lemma_day_pos_bounds(d, t, d.len() as int);
        let s = insert_day(d, t);
        let k = choose|k: int| 0 <= k < s.len() && s[k] == x;
        if k < q {
            assert(s[k] == d[k]);
        } else if k > q {
            assert(s[k] == d[k - 1]);
        }
    }
}

proof fn lemma_rates_for_day(es: Seq<NodeMetricsDaily>, sn: Seq<char>, t: u64)
    requires
        days_of(es, sn).contains(t),
    ensures
        rates_for(es, sn, t).len() > 0,
    decreases es.len(),
{
    if es.len() > 0 {
        let d = days_of(es.drop_last(), sn);
        if es.last().subnet_assigned@ == sn {
            lemma_insert_day_contains(d, es.last().ts.0, t);
            if d.contains(t) {
                lemma_rates_for_day(es.drop_last(), sn, t);
            }
        } else {
            lemma_rates_for_day(es.drop_last(), sn, t);
        }
    }
}

proof fn lemma_rates_for_wf(es: Seq<NodeMetricsDaily>, sn: Seq<char>, t: u64)
    requires
        forall|i: int| 0 <= i < es.len() ==> (#[trigger] es[i]).failure_rate.wf(),
    ensures
        all_wf(rates_for(es, sn, t)),
    decreases es.len(),
{
    if es.len() > 0 {
        lemma_rates_for_wf(es.drop_last(), sn, t);
        let r = rates_for(es.drop_last(), sn, t);
        assert(es.last().failure_rate.wf());
        assert forall|i: int| 0 <= i < rates_for(es, sn, t).len() implies (#[trigger] rates_for(es, sn, t)[i]).wf() by {
            if i < r.len() {
                assert(rates_for(es, sn, t)[i] == r[i]);
            }
        }
    }
}

/// The daily failure rates of each subnet: for each subnet with metrics (in order of first
/// appearance) and each day on which it has metrics (increasing), the 75th percentile of the
/// failure rates of its nodes that day (see [`rates_of_subnet`]).
pub fn subnets_failure_rates(metrics_by_node: &Vec<(String, Vec<NodeMetricsDaily>)>) -> (r: Vec<(String, Vec<SubnetDailyFailureRate>)>)
    requires
        forall|i: int| 0 <= i < all_entries(metrics_by_node@).len() ==> (#[trigger] all_entries(metrics_by_node@)[i]).failure_rate.wf(),
    ensures
        r@.len() == subnets_of(all_entries(metrics_by_node@)).len(),
        forall|i: int|
            0 <= i < r@.len() ==> (#[trigger] r@[i]).0@ == subnets_of(all_entries(metrics_by_node@))[i] && rates_of_subnet(
                r@[i].1@,
                all_entries(metrics_by_node@),
                r@[i].0@,
            ),
{
    let es = flatten_entries(metrics_by_node);
    let subnets = subnets_in(&es);
    let mut out: Vec<(String, Vec<SubnetDailyFailureRate>)> = Vec::new();
    let mut i: usize = 0;
    while i < subnets.len()
        invariant
            i <= subnets@.len(),
            es@ == all_entries(metrics_by_node@),
            texts(subnets@) == subnets_of(es@),
            forall|k: int| 0 <= k < es@.len() ==> (#[trigger] es@[k]).failure_rate.wf(),
            out@.len() == i,
            forall|k: int| 0 <= k < i ==> (#[trigger] out@[k]).0@ == subnets_of(es@)[k] && rates_of_subnet(out@[k].1@, es@, out@[k].0@),
        decreases subnets.len() - i,
    {
        let sn = subnets[i].as_str();
        let days = days_in(&es, sn);
        let mut rates: Vec<SubnetDailyFailureRate> = Vec::new();
        let mut j: usize = 0;
        while j < days.len()
            invariant
                j <= days@.len(),
                days@ == days_of(es@, sn@),
                forall|k: int| 0 <= k < es@.len() ==> (#[trigger] es@[k]).failure_rate.wf(),
                rates@.len() == j,
                forall|k: int| 0 <= k < j ==> (#[trigger] rates@[k]).ts.0 == days@[k] && rates@[k].value == subnet_rate(es@, sn@, days@[k]),
            decreases days.len() - j,
        {
            let t = days[j];
            let day_rates = rates_in(&es, sn, t);
            proof {
                assert(days@.contains(t)) by {
                    assert(days@[j as int] == t);
                }
                lemma_rates_for_day(es@, sn@, t);
                lemma_rates_for_wf(es@, sn@, t);
                lemma_by_value_len(day_rates@);
            }
            let sorted = sort_by_value(&day_rates);
            let n = sorted.len();
            let index = n - n / 4 - 1;
            let ghost before = rates@;
            rates.push(SubnetDailyFailureRate { ts: DayEndNanos(t), value: sorted[index] });
            assert forall|k: int| 0 <= k < j + 1 implies (#[trigger] rates@[k]).ts.0 == days@[k] && rates@[k].value == subnet_rate(
                es@,
                sn@,
                days@[k],
            ) by {
                if k < j {
                    assert(rates@[k] == before[k]);
                }
            }
            j = j + 1;
        }
        let ghost before = out@;
        out.push((subnets[i].clone(), rates));
        assert(texts(subnets@)[i as int] == subnets@[i as int]@);
        assert forall|k: int| 0 <= k < i + 1 implies (#[trigger] out@[k]).0@ == subnets_of(es@)[k] && rates_of_subnet(
            out@[k].1@,
            es@,
            out@[k].0@,
        ) by {
            if k < i {
                assert(out@[k] == before[k]);
            }
        }
        i = i + 1;
    }
    assert(texts(subnets@).len() == subnets@.len());
    out
}

} // verus!
