//! Reward multipliers of nodes from their block-making performance, and the rewards of a node
//! provider from the rewards table.
use vstd::prelude::*;
use crate::dec::{Dec, checked_add, checked_sub, checked_mul, checked_div, lt, gt, to_u64, round_dp, to_text, spec_add, spec_sub, spec_mul, spec_div, spec_lt, wf_result, decimal_to_u64, MAX_MANTISSA};
use crate::categories::{is_type3, type3_region_key, spec_is_type3, spec_type3_region_key};
use crate::rewards_log::{Operation, LogEntry, RewardsPerNodeProviderLog, spec_sum, all_wf, mantissa_sum, all_small_ints, lemma_mantissa_sum_monotone, extended};

verus! {

/// Block-making metrics of a node on one day.
#[derive(Debug, Clone)]
pub struct DailyNodeMetrics {
    pub ts: u64,
    pub subnet_assigned: String,
    pub num_blocks_proposed: u64,
    pub num_blocks_failed: u64,
}

impl DailyNodeMetrics {
    pub fn new(ts: u64, subnet_assigned: String, num_blocks_proposed: u64, num_blocks_failed: u64) -> (r: Self)
        ensures
            r.ts == ts,
            r.subnet_assigned == subnet_assigned,
            r.num_blocks_proposed == num_blocks_proposed,
            r.num_blocks_failed == num_blocks_failed,
    {
        DailyNodeMetrics { ts, subnet_assigned, num_blocks_proposed, num_blocks_failed }
    }
}

/// What went into the reward multiplier of a node.
#[derive(Debug, Clone, Copy)]
pub struct RewardsMultiplierStats {
    pub days_assigned: u64,
    pub days_unassigned: u64,
    pub rewards_reduction: Dec,
    pub blocks_failed: u64,
    pub blocks_proposed: u64,
    pub blocks_total: u64,
    pub failure_rate: Dec,
}

/// Failure rate below which rewards are not reduced: 0.1.
pub open spec fn min_failure_rate() -> Dec {
    Dec::spec_new(1, 1)
}

/// Failure rate above which rewards are reduced the most: 0.6.
pub open spec fn max_failure_rate() -> Dec {
    Dec::spec_new(6, 1)
}

/// The largest reduction of rewards: 0.8.
pub open spec fn max_rewards_reduction() -> Dec {
    Dec::spec_new(8, 1)
}

/// Applies `f` to the value of `o`, when there is one.
pub open spec fn bind(o: Option<Dec>, f: spec_fn(Dec) -> Option<Dec>) -> Option<Dec> {
    match o {
        Some(v) => f(v),
        None => None,
    }
}

/// The reduction of rewards for a failure rate: none below 0.1, the largest (0.8) above 0.6, and
/// in between the linear interpolation `(fr - 0.1) / (0.6 - 0.1) * 0.8`.
pub open spec fn spec_rewards_reduction(failure_rate: Dec) -> Option<Dec> {
    if spec_lt(failure_rate, min_failure_rate()) {
        Some(Dec::spec_new(0, 0))
    } else if spec_lt(max_failure_rate(), failure_rate) {
        Some(max_rewards_reduction())
    } else {
        bind(spec_sub(failure_rate, min_failure_rate()), |y: Dec|
            bind(spec_sub(max_failure_rate(), min_failure_rate()), |x: Dec|
                bind(spec_div(y, x), |m: Dec| spec_mul(m, max_rewards_reduction()))))
    }
}

/// The failed blocks of each day, as decimals.
pub open spec fn failed_decs(m: Seq<DailyNodeMetrics>) -> Seq<Dec> {
    Seq::new(m.len(), |i: int| Dec::spec_new(m[i].num_blocks_failed as int, 0))
}

/// The proposed blocks of each day, as decimals.
pub open spec fn proposed_decs(m: Seq<DailyNodeMetrics>) -> Seq<Dec> {
    Seq::new(m.len(), |i: int| Dec::spec_new(m[i].num_blocks_proposed as int, 0))
}

/// The overall failure rate from the failed and the total blocks: zero when no block was made.
pub open spec fn spec_failure_rate(failed: Dec, total: Dec) -> Option<Dec> {
    if spec_lt(Dec::spec_new(0, 0), total) {
        spec_div(failed, total)
    } else {
        Some(Dec::spec_new(0, 0))
    }
}

/// The reward multiplier of a node that was assigned on `days_assigned` of `total_days` days and
/// failed `failed` of `total` blocks: unassigned days count fully, assigned days count reduced by
/// the failure rate, and the multiplier is the average over all days.
pub open spec fn spec_multiplier_from_totals(failed: Dec, total: Dec, days_assigned: Dec, total_days: Dec) -> Option<Dec> {
    bind(spec_sub(total_days, days_assigned), |days_unassigned: Dec|
        bind(spec_failure_rate(failed, total), |fr: Dec|
            bind(spec_rewards_reduction(fr), |red: Dec|
                bind(spec_sub(Dec::spec_new(1, 0), red), |ma: Dec|
                    bind(spec_mul(days_assigned, ma), |af: Dec|
                        bind(spec_mul(days_unassigned, Dec::spec_new(1, 0)), |uf: Dec|
                            bind(spec_add(af, uf), |s: Dec| spec_div(s, total_days))))))))
}

/// The total of failed and proposed blocks: `0 + failed + proposed`.
pub open spec fn spec_total(failed: Dec, proposed: Dec) -> Option<Dec> {
    spec_sum(seq![failed, proposed])
}

/// The sum of the failed blocks of all days.
pub open spec fn total_failed(m: Seq<DailyNodeMetrics>) -> int {
    mantissa_sum(failed_decs(m))
}

/// The sum of the proposed blocks of all days.
pub open spec fn total_proposed(m: Seq<DailyNodeMetrics>) -> int {
    mantissa_sum(proposed_decs(m))
}

/// The multiplier and its statistics, from the failed, proposed and total blocks, the number of
/// assigned days and the days of the period.
pub open spec fn spec_multiplier_core(failed: Dec, proposed: Dec, total: Dec, days: int, total_days: u64) -> Option<(Dec, RewardsMultiplierStats)> {
    let da = Dec::spec_new(days, 0);
    let td = Dec::spec_new(total_days as int, 0);
    match (spec_sub(td, da), spec_failure_rate(failed, total)) {
        (Some(du), Some(fr)) => match (spec_rewards_reduction(fr), spec_multiplier_from_totals(failed, total, da, td)) {
            (Some(red), Some(mult)) => match (
                decimal_to_u64(da.mantissa, da.scale),
                decimal_to_u64(du.mantissa, du.scale),
                decimal_to_u64(failed.mantissa, failed.scale),
                decimal_to_u64(proposed.mantissa, proposed.scale),
                decimal_to_u64(total.mantissa, total.scale),
            ) {
                (Some(a), Some(u), Some(f), Some(p), Some(t)) => Some((mult, RewardsMultiplierStats {
                    days_assigned: a,
                    days_unassigned: u,
                    rewards_reduction: red,
                    blocks_failed: f,
                    blocks_proposed: p,
                    blocks_total: t,
                    failure_rate: fr,
                })),
                _ => None,
            },
            _ => None,
        },
        _ => None,
    }
}

/// The reward multiplier of a node with the given daily metrics over a period of `total_days`
/// days, with its statistics; `None` when a step overflows or a statistic is negative.
pub open spec fn spec_node_rewards_multiplier_stats(m: Seq<DailyNodeMetrics>, total_days: u64) -> Option<(Dec, RewardsMultiplierStats)> {
    match (spec_sum(failed_decs(m)), spec_sum(proposed_decs(m))) {
        (Some(failed), Some(proposed)) => match spec_total(failed, proposed) {
            Some(total) => spec_multiplier_core(failed, proposed, total, m.len() as int, total_days),
            None => None,
        },
        _ => None,
    }
}

proof fn lemma_mantissa_sum_front(s: Seq<Dec>)
    requires
        s.len() > 0,
    ensures
        mantissa_sum(s) == s[0].mantissa + mantissa_sum(s.skip(1)),
    decreases s.len(),
{
    if s.len() == 1 {
        assert(s.drop_last() =~= Seq::<Dec>::empty());
        assert(s.skip(1) =~= Seq::<Dec>::empty());
    } else {
        lemma_mantissa_sum_front(s.drop_last());
        assert(s.drop_last().skip(1) =~= s.skip(1).drop_last());
    }
}

proof fn lemma_mantissa_sum_reverse(s: Seq<Dec>)
    ensures
        mantissa_sum(s.reverse()) == mantissa_sum(s),
    decreases s.len(),
{
    if s.len() > 0 {
        lemma_mantissa_sum_reverse(s.skip(1));
        assert(s.reverse().drop_last() =~= s.skip(1).reverse());
        lemma_mantissa_sum_front(s);
    }
}

/// Reversing the daily metrics of a node keeps its totals of failed and proposed blocks and the
/// number of days, the only things its reward multiplier depends on (see
/// [`RewardsManager::node_rewards_multiplier`]): the multiplier of a node does not depend on the
/// order of its days.
pub proof fn lemma_multiplier_ignores_order(m: Seq<DailyNodeMetrics>)
    ensures
        total_failed(m.reverse()) == total_failed(m),
        total_proposed(m.reverse()) == total_proposed(m),
        m.reverse().len() == m.len(),
{
    assert(failed_decs(m.reverse()) =~= failed_decs(m).reverse());
    assert(proposed_decs(m.reverse()) =~= proposed_decs(m).reverse());
    lemma_mantissa_sum_reverse(failed_decs(m));
    lemma_mantissa_sum_reverse(proposed_decs(m));
}

proof fn lemma_mantissa_sum_remove(s: Seq<Dec>, k: int)
    requires
        0 <= k < s.len(),
    ensures
        mantissa_sum(s) == mantissa_sum(s.remove(k)) + s[k].mantissa,
    decreases s.len(),
{
    if k == s.len() - 1 {
        assert(s.remove(k) =~= s.drop_last());
    } else {
        lemma_mantissa_sum_remove(s.drop_last(), k);
        assert(s.remove(k).drop_last() =~= s.drop_last().remove(k));
        assert(s.remove(k).last() == s.last());
    }
}

/// The daily metrics of a node listed in any order have the same totals of failed and proposed
/// blocks and the same number of days, the only things its reward multiplier depends on (see
/// [`RewardsManager::node_rewards_multiplier`]): the multiplier does not depend on the order of
/// the days.
pub proof fn lemma_multiplier_ignores_permutation(m: Seq<DailyNodeMetrics>, m2: Seq<DailyNodeMetrics>)
    requires
        m.to_multiset() == m2.to_multiset(),
    ensures
        total_failed(m2) == total_failed(m),
        total_proposed(m2) == total_proposed(m),
        m2.len() == m.len(),
    decreases m.len(),
{
    broadcast use vstd::seq_lib::group_to_multiset_ensures;
    assert(m.len() == m.to_multiset().len());
    assert(m2.len() == m2.to_multiset().len());
    if m.len() > 0 {
        let x = m.last();
        assert(m.to_multiset().count(x) > 0) by {
            assert(m.contains(x)) by {
                assert(m[m.len() - 1] == x);
            }
        }
        assert(m2.contains(x));
        let k = choose|k: int| 0 <= k < m2.len() && m2[k] == x;
        let m2r = m2.remove(k);
        assert(m.drop_last() =~= m.remove(m.len() - 1));
        assert(m.drop_last().to_multiset() == m.to_multiset().remove(x));
        assert(m2r.to_multiset() == m2.to_multiset().remove(x));
        lemma_multiplier_ignores_permutation(m.drop_last(), m2r);
        assert(failed_decs(m2).remove(k) =~= failed_decs(m2r));
        assert(proposed_decs(m2).remove(k) =~= proposed_decs(m2r));
        lemma_mantissa_sum_remove(failed_decs(m2), k);
        lemma_mantissa_sum_remove(proposed_decs(m2), k);
        assert(failed_decs(m).drop_last() =~= failed_decs(m.drop_last()));
        assert(proposed_decs(m).drop_last() =~= proposed_decs(m.drop_last()));
    }
}

/// The rate of a node type in a region, as the rewards table gives it.
#[derive(Debug, Clone, Copy, PartialEq, Eq)]
pub struct NodeRewardRate {
    pub xdr_permyriad_per_node_per_month: u64,
    pub reward_coefficient_percent: Option<i32>,
}

/// The rewards of a node provider, in XDR permyriad, with and without the reductions for poor
/// performance.
#[derive(Debug, Clone, Copy, PartialEq, Eq)]
pub struct NodeProviderRewards {
    pub rewards_xdr_permyriad: u64,
    pub rewards_xdr_permyriad_no_reduction: u64,
}

/// A region and a node type.
pub type RegionNodeTypeCategory = (String, String);

/// The rate used for a category: the table's, or 1 XDR permyriad with a coefficient of 100% when
/// the table has none.
pub open spec fn effective_rate(rate: Option<NodeRewardRate>) -> NodeRewardRate {
    match rate {
        Some(r) => r,
        None => NodeRewardRate { xdr_permyriad_per_node_per_month: 1, reward_coefficient_percent: Some(100) },
    }
}

/// The monthly base rewards of one node of a category.
pub open spec fn spec_base_rewards(rate: Option<NodeRewardRate>) -> Dec {
    Dec::spec_new(effective_rate(rate).xdr_permyriad_per_node_per_month as int, 0)
}

/// The reduction coefficient of a type3 category: its percentage (80 when unset) over 100.
pub open spec fn spec_coefficient(rate: Option<NodeRewardRate>) -> Option<Dec> {
    let pct: int = match effective_rate(rate).reward_coefficient_percent {
        Some(p) => p as int,
        None => 80,
    };
    spec_div(Dec::spec_new(pct, 0), Dec::spec_new(100, 0))
}

/// The category holds type3 nodes, and at least one.
pub open spec fn is_type3_group(cat: (RegionNodeTypeCategory, u32)) -> bool {
    spec_is_type3(cat.0.1@) && cat.1 > 0
}

/// `n` copies of `d`.
pub open spec fn repeat(d: Dec, n: nat) -> Seq<Dec> {
    Seq::new(n, |i: int| d)
}

/// The coefficients and base rewards of all type3 nodes whose region has the key `key`, among the
/// first `n` categories: one entry per node.
pub open spec fn spec_type3_group(
    cats: Seq<(RegionNodeTypeCategory, u32)>,
    rates: Seq<Option<NodeRewardRate>>,
    key: Seq<char>,
    n: int,
) -> Option<(Seq<Dec>, Seq<Dec>)>
    decreases n,
{
    if n <= 0 {
        Some((Seq::empty(), Seq::empty()))
    } else {
        match spec_type3_group(cats, rates, key, n - 1) {
            None => None,
            Some((c, r)) => {
                let cat = cats[n - 1];
                if is_type3_group(cat) && spec_type3_region_key(cat.0.0@) == key {
                    match spec_coefficient(rates[n - 1]) {
                        Some(co) => Some((c + repeat(co, cat.1 as nat), r + repeat(spec_base_rewards(rates[n - 1]), cat.1 as nat))),
                        None => None,
                    }
                } else {
                    Some((c, r))
                }
            },
        }
    }
}

/// The rewards of the first `n` type3 nodes of a region: the average rewards, reduced for each
/// node after the first by one more factor of the average coefficient. Returns the sum and the
/// next factor.
pub open spec fn spec_type3_running(rewards_avg: Dec, coefficients_avg: Dec, n: nat) -> Option<(Dec, Dec)>
    decreases n,
{
    if n == 0 {
        Some((Dec::spec_new(0, 0), Dec::spec_new(1, 0)))
    } else {
        match spec_type3_running(rewards_avg, coefficients_avg, (n - 1) as nat) {
            Some((acc, running)) => match spec_mul(rewards_avg, running) {
                Some(term) => match (spec_add(acc, term), spec_mul(running, coefficients_avg)) {
                    (Some(acc2), Some(running2)) => Some((acc2, running2)),
                    _ => None,
                },
                None => None,
            },
            None => None,
        }
    }
}

/// The rewards of one type3 node of a region: the average of the reduced rewards of all its
/// type3 nodes.
pub open spec fn spec_type3_average(coefficients: Seq<Dec>, rewards: Seq<Dec>) -> Option<Dec> {
    let len = Dec::spec_new(rewards.len() as int, 0);
    let clen = Dec::spec_new(coefficients.len() as int, 0);
    match (spec_sum(coefficients), spec_sum(rewards)) {
        (Some(cs), Some(rs)) => match (spec_div(cs, clen), spec_div(rs, len)) {
            (Some(ca), Some(ra)) => match spec_type3_running(ra, ca, rewards.len()) {
                Some((acc, _)) => spec_div(acc, len),
                None => None,
            },
            _ => None,
        },
        _ => None,
    }
}

/// The rewards of one node of category `i` before its multiplier is applied.
pub open spec fn spec_node_base(
    cats: Seq<(RegionNodeTypeCategory, u32)>,
    rates: Seq<Option<NodeRewardRate>>,
    i: int,
) -> Option<Dec> {
    if is_type3_group(cats[i]) {
        match spec_type3_group(cats, rates, spec_type3_region_key(cats[i].0.0@), cats.len() as int) {
            Some((c, r)) => spec_type3_average(c, r),
            None => None,
        }
    } else {
        Some(spec_base_rewards(rates[i]))
    }
}

/// The multipliers recorded for a category, if any.
pub open spec fn lookup_multipliers(assigned: Seq<(RegionNodeTypeCategory, Vec<Dec>)>, cat: RegionNodeTypeCategory, from: int) -> Seq<Dec>
    decreases assigned.len() - from,
{
    if from >= assigned.len() || from < 0 {
        Seq::empty()
    } else if assigned[from].0.0@ == cat.0@ && assigned[from].0.1@ == cat.1@ {
        assigned[from].1@
    } else {
        lookup_multipliers(assigned, cat, from + 1)
    }
}

/// The multipliers of the `count` nodes of a category: those recorded for its assigned nodes, and
/// 1 for each node without a record; records beyond `count` are dropped.
pub open spec fn spec_category_multipliers(assigned: Seq<(RegionNodeTypeCategory, Vec<Dec>)>, cat: RegionNodeTypeCategory, count: nat) -> Seq<Dec> {
    let m = lookup_multipliers(assigned, cat, 0);
    if m.len() >= count {
        m.take(count as int)
    } else {
        m + repeat(Dec::spec_new(1, 0), (count - m.len()) as nat)
    }
}

/// Rewards of the nodes of a category (each `base` times its multiplier, summed from the
/// left), and the running total without reductions, which grows by `base` per node.
pub open spec fn spec_category_rewards(base: Dec, multipliers: Seq<Dec>, no_reduction: Dec) -> Option<(Dec, Dec)>
    decreases multipliers.len(),
{
    if multipliers.len() == 0 {
        Some((Dec::spec_new(0, 0), no_reduction))
    } else {
        match spec_category_rewards(base, multipliers.drop_last(), no_reduction) {
            Some((rx, nr)) => match (spec_add(nr, base), spec_mul(base, multipliers.last())) {
                (Some(nr2), Some(term)) => match spec_add(rx, term) {
                    Some(rx2) => Some((rx2, nr2)),
                    None => None,
                },
                _ => None,
            },
            None => None,
        }
    }
}

/// The total rewards and the total without reductions over the first `n` categories.
pub open spec fn spec_rewards_totals(
    cats: Seq<(RegionNodeTypeCategory, u32)>,
    rates: Seq<Option<NodeRewardRate>>,
    assigned: Seq<(RegionNodeTypeCategory, Vec<Dec>)>,
    n: int,
) -> Option<(Dec, Dec)>
    decreases n,
{
    if n <= 0 {
        Some((Dec::spec_new(0, 0), Dec::spec_new(0, 0)))
    } else {
        match spec_rewards_totals(cats, rates, assigned, n - 1) {
            Some((total, no_red)) => {
                let mults = spec_category_multipliers(assigned, cats[n - 1].0, cats[n - 1].1 as nat);
                if mults.len() == 0 {
                    match spec_add(total, Dec::spec_new(0, 0)) {
                        Some(t2) => Some((t2, no_red)),
                        None => None,
                    }
                } else {
                    match spec_node_base(cats, rates, n - 1) {
                        Some(base) => match spec_category_rewards(base, mults, no_red) {
                            Some((rx, nr2)) => match spec_add(total, rx) {
                                Some(t2) => Some((t2, nr2)),
                                None => None,
                            },
                            None => None,
                        },
                        None => None,
                    }
                }
            },
            None => None,
        }
    }
}

/// Every type3 category with nodes has a coefficient.
pub open spec fn coefficients_defined(cats: Seq<(RegionNodeTypeCategory, u32)>, rates: Seq<Option<NodeRewardRate>>) -> bool {
    forall|i: int| 0 <= i < cats.len() && is_type3_group(#[trigger] cats[i]) ==> spec_coefficient(rates[i]) is Some
}

/// The rewards of a node provider with `cats` rewardable nodes by category, the rates `rates` of
/// these categories, and the multipliers `assigned` of its assigned nodes by category.
pub open spec fn spec_node_provider_rewards(
    cats: Seq<(RegionNodeTypeCategory, u32)>,
    rates: Seq<Option<NodeRewardRate>>,
    assigned: Seq<(RegionNodeTypeCategory, Vec<Dec>)>,
) -> Option<NodeProviderRewards> {
    if !coefficients_defined(cats, rates) {
        None
    } else {
        match spec_rewards_totals(cats, rates, assigned, cats.len() as int) {
            Some((total, no_red)) => match (decimal_to_u64(total.mantissa, total.scale), decimal_to_u64(no_red.mantissa, no_red.scale)) {
                (Some(t), Some(n)) => Some(NodeProviderRewards { rewards_xdr_permyriad: t, rewards_xdr_permyriad_no_reduction: n }),
                _ => None,
            },
            None => None,
        }
    }
}

/// The rate used for a category.
fn effective_rate_exec(rate: Option<NodeRewardRate>) -> (r: NodeRewardRate)
    ensures
        r == effective_rate(rate),
{
    match rate {
        Some(r) => r,
        None => NodeRewardRate { xdr_permyriad_per_node_per_month: 1, reward_coefficient_percent: Some(100) },
    }
}

/// The reduction coefficient of a type3 category.
fn coefficient(rate: Option<NodeRewardRate>) -> (r: Option<Dec>)
    ensures
        r == spec_coefficient(rate),
        wf_result(r),
{
    let pct: i64 = match effective_rate_exec(rate).reward_coefficient_percent {
        Some(p) => p as i64,
        None => 80,
    };
    checked_div(Dec::new(pct, 0), Dec::new(100, 0))
}

/// Whether two categories are the same.
fn same_category(a: &RegionNodeTypeCategory, b: &RegionNodeTypeCategory) -> (r: bool)
    ensures
        r == (a.0@ == b.0@ && a.1@ == b.1@),
{
    a.0 == b.0 && a.1 == b.1
}

/// `n` copies of `d` appended to `v`.
fn push_copies(v: &mut Vec<Dec>, d: Dec, n: u32)
    ensures
        final(v)@ == old(v)@ + repeat(d, n as nat),
{
    let ghost start = v@;
    let mut j: u32 = 0;
    while j < n
        invariant
            j <= n,
            v@ =~= start + repeat(d, j as nat),
        decreases n - j,
    {
        v.push(d);
        j = j + 1;
    }
}

/// The coefficients and base rewards of the type3 nodes whose region has the key `key`.
fn type3_group(
    cats: &Vec<(RegionNodeTypeCategory, u32)>,
    rates: &Vec<Option<NodeRewardRate>>,
    key: &String,
) -> (r: Option<(Vec<Dec>, Vec<Dec>)>)
    requires
        rates@.len() == cats@.len(),
    ensures
        match r {
            Some((c, w)) => spec_type3_group(cats@, rates@, key@, cats@.len() as int) == Some((c@, w@))
                && all_wf(c@) && all_wf(w@),
            None => spec_type3_group(cats@, rates@, key@, cats@.len() as int) is None,
        },
{
    let mut coefficients: Vec<Dec> = Vec::new();
    let mut rewards: Vec<Dec> = Vec::new();
    let mut i: usize = 0;
    while i < cats.len()
        invariant
            i <= cats@.len(),
            rates@.len() == cats@.len(),
            spec_type3_group(cats@, rates@, key@, i as int) == Some((coefficients@, rewards@)),
            all_wf(coefficients@),
            all_wf(rewards@),
        decreases cats.len() - i,
    {
        let cat = &cats[i];
        if is_type3(cat.0.1.as_str()) && cat.1 > 0 {
            let region_key = type3_region_key(cat.0.0.as_str());
            if region_key == *key {
                let co = match coefficient(rates[i]) {
                    Some(co) => co,
                    None => {
                        let mut k: usize = i + 1;
                        while k < cats.len()
                            invariant
                                i < k <= cats@.len(),
                                spec_type3_group(cats@, rates@, key@, k as int) is None,
                            decreases cats.len() - k,
                        {
                            k = k + 1;
                        }
                        return None;
                    },
                };
                let base = Dec::from_u64(effective_rate_exec(rates[i]).xdr_permyriad_per_node_per_month);
                push_copies(&mut coefficients, co, cat.1);
                push_copies(&mut rewards, base, cat.1);
            }
        }
        i = i + 1;
    }
    Some((coefficients, rewards))
}

/// Index of the first record of a category.
fn find_category(assigned: &Vec<(RegionNodeTypeCategory, Vec<Dec>)>, cat: &RegionNodeTypeCategory) -> (r: Option<usize>)
    ensures
        match r {
            Some(i) => i < assigned@.len() && lookup_multipliers(assigned@, *cat, 0) == assigned@[i as int].1@,
            None => lookup_multipliers(assigned@, *cat, 0) == Seq::<Dec>::empty(),
        },
{
    let mut i: usize = 0;
    while i < assigned.len()
        invariant
            i <= assigned@.len(),
            lookup_multipliers(assigned@, *cat, 0) == lookup_multipliers(assigned@, *cat, i as int),
        decreases assigned.len() - i,
    {
        if same_category(&assigned[i].0, cat) {
            return Some(i);
        }
        i = i + 1;
    }
    None
}

/// The recorded multipliers of a category, resized to its `count` nodes with 1 for the nodes
/// without a record.
fn category_multipliers(
    assigned: &Vec<(RegionNodeTypeCategory, Vec<Dec>)>,
    cat: &RegionNodeTypeCategory,
    count: u32,
) -> (r: Vec<Dec>)
    ensures
        r@ == spec_category_multipliers(assigned@, *cat, count as nat),
{
    let found = find_category(assigned, cat);
    let ghost m = lookup_multipliers(assigned@, *cat, 0);
    let mut out: Vec<Dec> = Vec::new();
    match found {
        Some(idx) => {
            let src = &assigned[idx].1;
            assert(src@ == m);
            let mut j: usize = 0;
            while j < src.len() && j < count as usize
                invariant
                    j <= src@.len(),
                    j <= count,
                    src@ == m,
                    out@ =~= m.take(j as int),
                decreases src.len() - j,
            {
                out.push(src[j]);
                j = j + 1;
            }
        },
        None => {
            assert(m.len() == 0);
        },
    }
    let ghost taken = out@;
    let mut k: usize = out.len();
    while k < count as usize
        invariant
            out@.len() == k,
            k <= count || k == taken.len(),
            out@ =~= taken + repeat(Dec::spec_new(1, 0), (k - taken.len()) as nat),
            taken.len() <= k,
        decreases count - k,
    {
        out.push(Dec::one());
        k = k + 1;
    }
    proof {
        if m.len() >= count {
            assert(taken =~= m.take(count as int));
            assert(out@ =~= m.take(count as int));
        } else {
            assert(taken =~= m);
        }
    }
    out
}

/// Rewards of the nodes of a category, each `base` times its multiplier, with the running total
/// without reductions.
fn category_rewards(base: Dec, multipliers: &Vec<Dec>, no_reduction: Dec) -> (r: Option<(Dec, Dec)>)
    requires
        base.wf(),
        no_reduction.wf(),
        all_wf(multipliers@),
    ensures
        r == spec_category_rewards(base, multipliers@, no_reduction),
        r matches Some((a, b)) ==> a.wf() && b.wf(),
{
    let mut rx = Dec::zero();
    let mut nr = no_reduction;
    let mut j: usize = 0;
    while j < multipliers.len()
        invariant
            j <= multipliers@.len(),
            base.wf(),
            no_reduction.wf(),
            all_wf(multipliers@),
            rx.wf(),
            nr.wf(),
            spec_category_rewards(base, multipliers@.take(j as int), no_reduction) == Some((rx, nr)),
        decreases multipliers.len() - j,
    {
        assert(multipliers@.take(j as int + 1).drop_last() =~= multipliers@.take(j as int));
        let nr2 = checked_add(nr, base);
        let term = checked_mul(base, multipliers[j]);
        let step = match (nr2, term) {
            (Some(a), Some(t)) => match checked_add(rx, t) {
                Some(b) => Some((b, a)),
                None => None,
            },
            _ => None,
        };
        match step {
            Some((b, a)) => {
                rx = b;
                nr = a;
            },
            None => {
                assert(spec_category_rewards(base, multipliers@.take(j as int + 1), no_reduction) is None);
                let mut k: usize = j + 1;
                while k < multipliers.len()
                    invariant
                        j < k <= multipliers@.len(),
                        spec_category_rewards(base, multipliers@.take(k as int), no_reduction) is None,
                    decreases multipliers.len() - k,
                {
                    assert(multipliers@.take(k as int + 1).drop_last() =~= multipliers@.take(k as int));
                    k = k + 1;
                }
                assert(multipliers@.take(multipliers@.len() as int) =~= multipliers@);
                return None;
            },
        }
        j = j + 1;
    }
    assert(multipliers@.take(multipliers@.len() as int) =~= multipliers@);
    Some((rx, nr))
}

/// The average rewards of a type3 region, whose key is the region key of `cats[i]`, looked up
/// among those already computed.
fn find_average(cache: &Vec<(String, Dec)>, key: &String) -> (r: Option<Dec>)
    ensures
        match r {
            Some(v) => exists|k: int| 0 <= k < cache@.len() && cache@[k].0@ == key@ && cache@[k].1 == v,
            None => forall|k: int| 0 <= k < cache@.len() ==> cache@[k].0@ != key@,
        },
{
    let mut i: usize = 0;
    while i < cache.len()
        invariant
            i <= cache@.len(),
            forall|k: int| 0 <= k < i ==> cache@[k].0@ != key@,
        decreases cache.len() - i,
    {
        if cache[i].0 == *key {
            return Some(cache[i].1);
        }
        i = i + 1;
    }
    None
}

/// The rewards of one type3 node of the region with key `key`.
pub open spec fn spec_key_average(
    cats: Seq<(RegionNodeTypeCategory, u32)>,
    rates: Seq<Option<NodeRewardRate>>,
    key: Seq<char>,
) -> Option<Dec> {
    match spec_type3_group(cats, rates, key, cats.len() as int) {
        Some((c, r)) => spec_type3_average(c, r),
        None => None,
    }
}

proof fn lemma_totals_none_propagates(
    cats: Seq<(RegionNodeTypeCategory, u32)>,
    rates: Seq<Option<NodeRewardRate>>,
    assigned: Seq<(RegionNodeTypeCategory, Vec<Dec>)>,
    k: int,
    n: int,
)
    requires
        0 <= k <= n,
        spec_rewards_totals(cats, rates, assigned, k) is None,
    ensures
        spec_rewards_totals(cats, rates, assigned, n) is None,
    decreases n - k,
{
    if k < n {
        lemma_totals_none_propagates(cats, rates, assigned, k, n - 1);
    }
}

proof fn lemma_totals_none_if_average_missing(
    cats: Seq<(RegionNodeTypeCategory, u32)>,
    rates: Seq<Option<NodeRewardRate>>,
    assigned: Seq<(RegionNodeTypeCategory, Vec<Dec>)>,
    i: int,
)
    requires
        0 <= i < cats.len(),
        is_type3_group(cats[i]),
        spec_key_average(cats, rates, spec_type3_region_key(cats[i].0.0@)) is None,
    ensures
        spec_rewards_totals(cats, rates, assigned, cats.len() as int) is None,
{
    let mults = spec_category_multipliers(assigned, cats[i].0, cats[i].1 as nat);
    assert(mults.len() == cats[i].1);
    assert(spec_node_base(cats, rates, i) is None);
    assert(spec_rewards_totals(cats, rates, assigned, i + 1) is None);
    lemma_totals_none_propagates(cats, rates, assigned, i + 1, cats.len() as int);
}

proof fn lemma_lookup_wf(assigned: Seq<(RegionNodeTypeCategory, Vec<Dec>)>, cat: RegionNodeTypeCategory, from: int)
    requires
        forall|k: int| 0 <= k < assigned.len() ==> all_wf(#[trigger] assigned[k].1@),
    ensures
        all_wf(lookup_multipliers(assigned, cat, from)),
    decreases assigned.len() - from,
{
    if 0 <= from < assigned.len() && !(assigned[from].0.0@ == cat.0@ && assigned[from].0.1@ == cat.1@) {
        lemma_lookup_wf(assigned, cat, from + 1);
    }
}

/// The sum of the reduced rewards of `n` type3 nodes, and the next reduction factor.
pub(crate) fn type3_running(rewards_avg: Dec, coefficients_avg: Dec, rlen_usize: usize) -> (r: Option<(Dec, Dec)>)
    requires
        rewards_avg.wf(),
        coefficients_avg.wf(),
    ensures
        r == spec_type3_running(rewards_avg, coefficients_avg, rlen_usize as nat),
        r matches Some((a, b)) ==> a.wf() && b.wf(),
{
    let mut running = Dec::one();
    let mut acc = Dec::zero();
    let mut k: usize = 0;
    while k < rlen_usize
        invariant
            k <= rlen_usize,
            rewards_avg.wf(),
            coefficients_avg.wf(),
            acc.wf(),
            running.wf(),
            spec_type3_running(rewards_avg, coefficients_avg, k as nat) == Some((acc, running)),
        decreases rlen_usize - k,
    {
        let term = checked_mul(rewards_avg, running);
        let step = match term {
            Some(t) => match (checked_add(acc, t), checked_mul(running, coefficients_avg)) {
                (Some(a), Some(b)) => Some((a, b)),
                _ => None,
            },
            None => None,
        };
        match step {
            Some((a, b)) => {
                acc = a;
                running = b;
            },
            None => {
                let mut q: usize = k + 1;
                while q < rlen_usize
                    invariant
                        k < q <= rlen_usize,
                        spec_type3_running(rewards_avg, coefficients_avg, q as nat) is None,
                    decreases rlen_usize - q,
                {
                    q = q + 1;
                }
                return None;
            },
        }
        k = k + 1;
    }
    Some((acc, running))
}

/// Concatenation of three texts.
fn text3(a: &str, b: &str, c: &str) -> (r: String)
    ensures
        r@ == a@ + b@ + c@,
{
    let mut s = String::from_str(a);
    s.append(b);
    s.append(c);
    s
}

/// Computes reward multipliers and node provider rewards, and keeps a record of every step.
pub struct RewardsManager {
    pub logger: RewardsPerNodeProviderLog,
}

/// Appends `b` to `a`.
fn concat(a: String, b: &str) -> (r: String)
    ensures
        r@ == a@ + b@,
{
    let mut a = a;
    a.append(b);
    a
}

impl RewardsManager {
    /// A manager with an empty record.
    pub fn new() -> (r: Self)
        ensures
            r.logger.entries@.len() == 0,
            r.logger.wf(),
    {
        RewardsManager { logger: RewardsPerNodeProviderLog::new() }
    }

    /// The reduction of rewards for the failure rate `failure_rate`: none below 0.1, the largest
    /// (0.8) above 0.6, linear in between. `None` when a step overflows.
    pub fn rewards_reduction_percent(&mut self, failure_rate: Dec) -> (r: Option<Dec>)
        requires
            failure_rate.wf(),
        ensures
            r == spec_rewards_reduction(failure_rate),
            wf_result(r),
            extended(old(self).logger.entries@, final(self).logger.entries@),
            old(self).logger.wf() ==> final(self).logger.wf(),
    {
        let min_fr = Dec::new(1, 1);
        let max_fr = Dec::new(6, 1);
        let max_reduction = Dec::new(8, 1);
        if lt(failure_rate, min_fr) {
            let reason = concat(concat(concat(concat(concat(String::from_str("No Reduction applied because "), to_text(round_dp(failure_rate, 4)).as_str()), " is less than "), to_text(min_fr).as_str()), " failure rate.\n"), "Linear Reduction factor");
            self.logger.execute(reason.as_str(), Operation::SetValue(Dec::zero()))
        } else if gt(failure_rate, max_fr) {
            let reason = concat(concat(concat(concat(concat(String::from_str("Max reduction applied because "), to_text(round_dp(failure_rate, 4)).as_str()), " is over "), to_text(max_fr).as_str()), " failure rate.\n"), "Linear Reduction factor");
            self.logger.execute(reason.as_str(), Operation::SetValue(max_reduction))
        } else {
            let y_change = self.logger.execute("Linear Reduction Y change", Operation::Subtract(failure_rate, min_fr))?;
            let x_change = self.logger.execute("Linear Reduction X change", Operation::Subtract(max_fr, min_fr))?;
            let m = self.logger.execute("Compute m", Operation::Divide(y_change, x_change))?;
            self.logger.execute("Linear Reduction factor", Operation::Multiply(m, max_reduction))
        }
    }

    /// The reward multiplier of a node over a period of `total_days` days, from its daily metrics
    /// on the days it was assigned to a subnet, with the statistics that went into it.
    /// The multiplier depends on the metrics only through their number and their totals of failed
    /// and proposed blocks. `None` when a step overflows, or when the node has metrics for more
    /// days than the period has.
    pub fn node_rewards_multiplier(&mut self, daily_metrics: &Vec<DailyNodeMetrics>, total_days: u64) -> (r: Option<(Dec, RewardsMultiplierStats)>)
        ensures
            r == spec_node_rewards_multiplier_stats(daily_metrics@, total_days),
            r matches Some(x) ==> x.0.wf(),
            total_failed(daily_metrics@) + total_proposed(daily_metrics@) <= MAX_MANTISSA ==> r == spec_multiplier_core(
                Dec::spec_new(total_failed(daily_metrics@), 0),
                Dec::spec_new(total_proposed(daily_metrics@), 0),
                Dec::spec_new(total_failed(daily_metrics@) + total_proposed(daily_metrics@), 0),
                daily_metrics@.len() as int,
                total_days,
            ),
            extended(old(self).logger.entries@, final(self).logger.entries@),
            old(self).logger.wf() ==> final(self).logger.wf(),
    {
        let ghost m = daily_metrics@;
        let total_days_dec = Dec::from_u64(total_days);
        let days_assigned = self.logger.execute("Assigned Days In Period", Operation::SetValue(Dec::from_u64(daily_metrics.len() as u64)))?;
        let days_unassigned = self.logger.execute("Unassigned Days In Period", Operation::Subtract(total_days_dec, days_assigned))?;

        let mut daily_failed: Vec<Dec> = Vec::new();
        let mut daily_proposed: Vec<Dec> = Vec::new();
        let mut i: usize = 0;
        while i < daily_metrics.len()
            invariant
                i <= daily_metrics.len(),
                m == daily_metrics@,
                daily_failed@ =~= failed_decs(m).take(i as int),
                daily_proposed@ =~= proposed_decs(m).take(i as int),
            decreases daily_metrics.len() - i,
        {
            daily_failed.push(Dec::from_u64(daily_metrics[i].num_blocks_failed));
            daily_proposed.push(Dec::from_u64(daily_metrics[i].num_blocks_proposed));
            i = i + 1;
        }
        assert(daily_failed@ =~= failed_decs(m));
        assert(daily_proposed@ =~= proposed_decs(m));
        assert(all_small_ints(failed_decs(m)));
        assert(all_small_ints(proposed_decs(m)));
        assert(all_wf(daily_failed@));
        assert(all_wf(daily_proposed@));
        proof {
            lemma_mantissa_sum_monotone(failed_decs(m), 0);
            lemma_mantissa_sum_monotone(proposed_decs(m), 0);
        }

        let overall_failed = self.logger.execute("Computing Total Failed Blocks", Operation::Sum(daily_failed))?;
        let overall_proposed = self.logger.execute("Computing Total Proposed Blocks", Operation::Sum(daily_proposed))?;
        let mut pair: Vec<Dec> = Vec::new();
        pair.push(overall_failed);
        pair.push(overall_proposed);
        assert(pair@ =~= seq![overall_failed, overall_proposed]);
        proof {
            if total_failed(m) + total_proposed(m) <= MAX_MANTISSA {
                assert(all_small_ints(pair@));
                assert(pair@.drop_last() =~= seq![overall_failed]);
                assert(seq![overall_failed].drop_last() =~= Seq::<Dec>::empty());
                assert(mantissa_sum(Seq::<Dec>::empty()) == 0);
                assert(mantissa_sum(seq![overall_failed]) == overall_failed.mantissa);
                assert(mantissa_sum(pair@) == overall_failed.mantissa + overall_proposed.mantissa);
            }
        }
        let overall_total = self.logger.execute("Computing Total Blocks", Operation::Sum(pair))?;
        let zero = Dec::zero();
        let overall_failure_rate = if gt(overall_total, zero) {
            self.logger.execute("Computing Total Failure Rate", Operation::Divide(overall_failed, overall_total))?
        } else {
            self.logger.execute("Computing Total Failure Rate", Operation::SetValue(zero))?
        };

        let rewards_reduction = self.rewards_reduction_percent(overall_failure_rate)?;
        let one = Dec::one();
        let rewards_multiplier_unassigned = self.logger.execute("Reward Multiplier Unassigned Days", Operation::SetValue(one))?;
        let rewards_multiplier_assigned = self.logger.execute("Reward Multiplier Assigned Days", Operation::Subtract(one, rewards_reduction))?;
        let assigned_days_factor = self.logger.execute("Assigned Days Factor", Operation::Multiply(days_assigned, rewards_multiplier_assigned))?;
        let unassigned_days_factor = self.logger.execute("Unassigned Days Factor", Operation::Multiply(days_unassigned, rewards_multiplier_unassigned))?;
        let factors = checked_add(assigned_days_factor, unassigned_days_factor)?;
        let rewards_multiplier = self.logger.execute("Average reward multiplier", Operation::Divide(factors, total_days_dec))?;

        let stats = RewardsMultiplierStats {
            days_assigned: to_u64(days_assigned)?,
            days_unassigned: to_u64(days_unassigned)?,
            rewards_reduction,
            blocks_failed: to_u64(overall_failed)?,
            blocks_proposed: to_u64(overall_proposed)?,
            blocks_total: to_u64(overall_total)?,
            failure_rate: overall_failure_rate,
        };
        Some((rewards_multiplier, stats))
    }

    /// The rewards of one type3 node of a region, from the coefficients and base rewards of all
    /// type3 nodes of the region: the average base rewards, reduced for each node after the first
    /// by one more factor of the average coefficient, averaged over the nodes.
    pub fn type3_average(&mut self, region: &String, coefficients: Vec<Dec>, rewards: Vec<Dec>) -> (r: Option<Dec>)
        requires
            all_wf(coefficients@),
            all_wf(rewards@),
        ensures
            r == spec_type3_average(coefficients@, rewards@),
            wf_result(r),
            extended(old(self).logger.entries@, final(self).logger.entries@),
            old(self).logger.wf() ==> final(self).logger.wf(),
    {
        let ghost c = coefficients@;
        let ghost w = rewards@;
        let clen = Dec::from_u64(coefficients.len() as u64);
        let rlen_usize = rewards.len();
        let rlen = Dec::from_u64(rewards.len() as u64);
        let coefficients_sum = self.logger.execute(
            text3("Coefficients sum in region ", region.as_str(), " for type3* nodes").as_str(),
            Operation::Sum(coefficients),
        )?;
        let coefficients_avg = self.logger.execute(
            text3("Coefficients avg in region ", region.as_str(), " for type3* nodes").as_str(),
            Operation::Divide(coefficients_sum, clen),
        )?;
        let rewards_sum = self.logger.execute(
            text3("Rewards sum in region ", region.as_str(), " for type3* nodes").as_str(),
            Operation::Sum(rewards),
        )?;
        let rewards_avg = self.logger.execute(
            text3("Rewards avg in region ", region.as_str(), " for type3* nodes").as_str(),
            Operation::Divide(rewards_sum, rlen),
        )?;
        let (acc, _running) = type3_running(rewards_avg, coefficients_avg, rlen_usize)?;
        self.logger.execute(
            text3("Computing rewards average after coefficient reduction in region ", region.as_str(), " for type3* nodes").as_str(),
            Operation::Divide(acc, rlen),
        )
    }

    /// The rewards of a node provider, from its rewardable nodes by category
    /// (`rewardable_nodes`, with the rates of the rewards table for these categories in `rates`,
    /// `None` where the table has no rate) and the multipliers of its assigned nodes by category
    /// (`assigned_multipliers`). Each node of a category is rewarded with the base rewards of the
    /// category times its multiplier (1 for nodes without a recorded multiplier); type3 nodes are
    /// rewarded with the reduced average of their region (see [`RewardsManager::type3_average`]).
    /// `None` when a step overflows or a total is negative or too large for `u64`.
    pub fn node_provider_rewards(
        &mut self,
        assigned_multipliers: &Vec<(RegionNodeTypeCategory, Vec<Dec>)>,
        rewardable_nodes: &Vec<(RegionNodeTypeCategory, u32)>,
        rates: &Vec<Option<NodeRewardRate>>,
    ) -> (r: Option<NodeProviderRewards>)
        requires
            rates@.len() == rewardable_nodes@.len(),
            forall|i: int| 0 <= i < assigned_multipliers@.len() ==> all_wf(#[trigger] assigned_multipliers@[i].1@),
        ensures
            r == spec_node_provider_rewards(rewardable_nodes@, rates@, assigned_multipliers@),
            extended(old(self).logger.entries@, final(self).logger.entries@),
            old(self).logger.wf() ==> final(self).logger.wf(),
    {
        let ghost cats = rewardable_nodes@;
        let ghost rs = rates@;
        let ghost assigned = assigned_multipliers@;
        let n = rewardable_nodes.len();

        // The rates of the categories, and the coefficients of the type3 ones.
        let mut i: usize = 0;
        while i < n
            invariant
                i <= n,
                n == cats.len(),
                cats == rewardable_nodes@,
                rs == rates@,
                rs.len() == n,
                forall|j: int| 0 <= j < i && is_type3_group(#[trigger] cats[j]) ==> spec_coefficient(rs[j]) is Some,
                extended(old(self).logger.entries@, self.logger.entries@),
                old(self).logger.wf() ==> self.logger.wf(),
            decreases n - i,
        {
            let cat = &rewardable_nodes[i];
            if rates[i].is_none() {
                self.logger.add_entry(LogEntry::RateNotFoundInRewardTable { node_type: cat.0.1.clone(), region: cat.0.0.clone() });
            }
            let base_rewards = Dec::from_u64(effective_rate_exec(rates[i]).xdr_permyriad_per_node_per_month);
            if is_type3(cat.0.1.as_str()) && cat.1 > 0 {
                let coeff = match coefficient(rates[i]) {
                    Some(c) => c,
                    None => {
                        assert(!coefficients_defined(cats, rs));
                        return None;
                    },
                };
                self.logger.add_entry(LogEntry::RewardTableEntry {
                    node_type: cat.0.1.clone(),
                    region: cat.0.0.clone(),
                    coeff,
                    base_rewards,
                });
            } else {
                self.logger.add_entry(LogEntry::RewardTableEntry {
                    node_type: cat.0.1.clone(),
                    region: cat.0.0.clone(),
                    coeff: Dec::one(),
                    base_rewards,
                });
            }
            i = i + 1;
        }
        assert(coefficients_defined(cats, rs));

        // The rewards of one type3 node, by region key.
        let mut cache: Vec<(String, Dec)> = Vec::new();
        let mut i: usize = 0;
        while i < n
            invariant
                i <= n,
                n == cats.len(),
                cats == rewardable_nodes@,
                rs == rates@,
                assigned == assigned_multipliers@,
                rs.len() == n,
                coefficients_defined(cats, rs),
                forall|k: int| 0 <= k < cache@.len() ==> spec_key_average(cats, rs, (#[trigger] cache@[k]).0@) == Some(cache@[k].1) && cache@[k].1.wf(),
                forall|j: int| 0 <= j < i && is_type3_group(#[trigger] cats[j]) ==>
                    exists|k: int| 0 <= k < cache@.len() && cache@[k].0@ == spec_type3_region_key(cats[j].0.0@),
                extended(old(self).logger.entries@, self.logger.entries@),
                old(self).logger.wf() ==> self.logger.wf(),
            decreases n - i,
        {
            let cat = &rewardable_nodes[i];
            if is_type3(cat.0.1.as_str()) && cat.1 > 0 {
                let key = type3_region_key(cat.0.0.as_str());
                if find_average(&cache, &key).is_none() {
                    let avg = match type3_group(rewardable_nodes, rates, &key) {
                        Some((c, w)) => self.type3_average(&key, c, w),
                        None => None,
                    };
                    match avg {
                        Some(v) => {
                            let ghost old_cache = cache@;
                            cache.push((key, v));
                            assert(cache@[old_cache.len() as int].0@ == spec_type3_region_key(cats[i as int].0.0@));
                            assert forall|j: int| 0 <= j < i + 1 && is_type3_group(#[trigger] cats[j]) implies
                                exists|k: int| 0 <= k < cache@.len() && cache@[k].0@ == spec_type3_region_key(cats[j].0.0@) by {
                                if j < i {
                                    let k = choose|k: int| 0 <= k < old_cache.len() && old_cache[k].0@ == spec_type3_region_key(cats[j].0.0@);
                                    assert(cache@[k] == old_cache[k]);
                                } else {
                                    assert(cache@[old_cache.len() as int].0@ == spec_type3_region_key(cats[j].0.0@));
                                }
                            }
                        },
                        None => {
                            proof {
                                lemma_totals_none_if_average_missing(cats, rs, assigned, i as int);
                            }
                            return None;
                        },
                    }
                }
            }
            i = i + 1;
        }

        // The rewards of all nodes, category by category.
        let mut total = Dec::zero();
        let mut no_reduction_total = Dec::zero();
        let mut i: usize = 0;
        while i < n
            invariant
                i <= n,
                n == cats.len(),
                cats == rewardable_nodes@,
                rs == rates@,
                assigned == assigned_multipliers@,
                rs.len() == n,
                coefficients_defined(cats, rs),
                forall|k: int| 0 <= k < assigned.len() ==> all_wf(#[trigger] assigned[k].1@),
                forall|k: int| 0 <= k < cache@.len() ==> spec_key_average(cats, rs, (#[trigger] cache@[k]).0@) == Some(cache@[k].1) && cache@[k].1.wf(),
                forall|j: int| 0 <= j < n && is_type3_group(#[trigger] cats[j]) ==>
                    exists|k: int| 0 <= k < cache@.len() && cache@[k].0@ == spec_type3_region_key(cats[j].0.0@),
                total.wf(),
                no_reduction_total.wf(),
                spec_rewards_totals(cats, rs, assigned, i as int) == Some((total, no_reduction_total)),
                extended(old(self).logger.entries@, self.logger.entries@),
                old(self).logger.wf() ==> self.logger.wf(),
            decreases n - i,
        {
            let cat = &rewardable_nodes[i];
            let multipliers = category_multipliers(assigned_multipliers, &cat.0, cat.1);
            proof {
                let m = lookup_multipliers(assigned, cat.0, 0);
                assert(all_wf(multipliers@)) by {
                    assert forall|q: int| 0 <= q < multipliers@.len() implies #[trigger] multipliers@[q].wf() by {
                        lemma_lookup_wf(assigned, cat.0, 0);
                        if q < m.len() {
                            assert(multipliers@[q] == m[q]);
                        }
                    }
                }
            }
            self.logger.execute(
                text3("Rewards multipliers len for nodes in region ", cat.0.0.as_str(), " with type ").as_str(),
                Operation::SetValue(Dec::from_u64(multipliers.len() as u64)),
            );
            let rewards_xdr = if multipliers.len() == 0 {
                Dec::zero()
            } else {
                let base = if is_type3(cat.0.1.as_str()) && cat.1 > 0 {
                    let key = type3_region_key(cat.0.0.as_str());
                    match find_average(&cache, &key) {
                        Some(v) => v,
                        None => {
                            assert(false);
                            Dec::zero()
                        },
                    }
                } else {
                    Dec::from_u64(effective_rate_exec(rates[i]).xdr_permyriad_per_node_per_month)
                };
                assert(spec_node_base(cats, rs, i as int) == Some(base));
                match category_rewards(base, &multipliers, no_reduction_total) {
                    Some((rx, nr)) => {
                        no_reduction_total = nr;
                        rx
                    },
                    None => {
                        proof {
                            lemma_totals_none_propagates(cats, rs, assigned, i as int + 1, n as int);
                        }
                        return None;
                    },
                }
            };
            self.logger.execute(
                text3("Rewards contribution XDR permyriad for nodes in region ", cat.0.0.as_str(), " with type ").as_str(),
                Operation::SetValue(rewards_xdr),
            );
            total = match checked_add(total, rewards_xdr) {
                Some(t) => t,
                None => {
                    proof {
                        lemma_totals_none_propagates(cats, rs, assigned, i as int + 1, n as int);
                    }
                    return None;
                },
            };
            i = i + 1;
        }
        self.logger.execute("Total rewards XDR permyriad\n", Operation::SetValue(total));
        let t = to_u64(total)?;
        let nr = to_u64(no_reduction_total)?;
        Some(NodeProviderRewards { rewards_xdr_permyriad: t, rewards_xdr_permyriad_no_reduction: nr })
    }
}

} // verus!
