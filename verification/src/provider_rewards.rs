//! The rewards of every node provider over a reward period: the multiplier of each of its nodes
//! with metrics, and its rewards, each with the record of its computation.
use vstd::prelude::*;
use crate::dates::{nanos_fit, DateTimeRange};
use crate::dec::{decimal_to_u64, to_u64, Dec};
use crate::metrics_store::first_occurrences;
use crate::nodes_manager::NodeMetadata;
use crate::registry::find_key;
use crate::rewards_log::{all_wf, extended, log_text, LogEntry};
use crate::rewards_manager::{
    lookup_multipliers, spec_node_provider_rewards, spec_node_rewards_multiplier_stats, spec_rewards_totals, DailyNodeMetrics, NodeProviderRewards,
    NodeRewardRate, RegionNodeTypeCategory, RewardsManager, RewardsMultiplierStats,
};
use crate::subnet::str_eq;
use crate::subnet_metrics::{assoc_pos, lemma_assoc_pos_bounds};

verus! {

/// Multipliers by category, as views.
pub type AssignedView = Seq<((Seq<char>, Seq<char>), Seq<Dec>)>;

/// The view of multipliers by category.
pub open spec fn assigned_view(a: Seq<(RegionNodeTypeCategory, Vec<Dec>)>) -> AssignedView {
    a.map_values(|p: (RegionNodeTypeCategory, Vec<Dec>)| ((p.0.0@, p.0.1@), p.1@))
}

/// Multipliers by category with the view `av`.
pub open spec fn assigned_of(av: AssignedView) -> Seq<(RegionNodeTypeCategory, Vec<Dec>)> {
    choose|a: Seq<(RegionNodeTypeCategory, Vec<Dec>)>| assigned_view(a) == av
}

proof fn lemma_lookup_by_view(a1: Seq<(RegionNodeTypeCategory, Vec<Dec>)>, a2: Seq<(RegionNodeTypeCategory, Vec<Dec>)>, cat: RegionNodeTypeCategory, from: int)
    requires
        assigned_view(a1) == assigned_view(a2),
    ensures
        lookup_multipliers(a1, cat, from) == lookup_multipliers(a2, cat, from),
    decreases a1.len() - from,
{
    assert(a1.len() == assigned_view(a1).len());
    assert(a2.len() == assigned_view(a2).len());
    if 0 <= from < a1.len() {
        assert(assigned_view(a1)[from] == assigned_view(a2)[from]);
        lemma_lookup_by_view(a1, a2, cat, from + 1);
    }
}

proof fn lemma_totals_by_view(
    cats: Seq<(RegionNodeTypeCategory, u32)>,
    rates: Seq<Option<NodeRewardRate>>,
    a1: Seq<(RegionNodeTypeCategory, Vec<Dec>)>,
    a2: Seq<(RegionNodeTypeCategory, Vec<Dec>)>,
    n: int,
)
    requires
        assigned_view(a1) == assigned_view(a2),
    ensures
        spec_rewards_totals(cats, rates, a1, n) == spec_rewards_totals(cats, rates, a2, n),
    decreases n,
{
    if n > 0 {
        lemma_totals_by_view(cats, rates, a1, a2, n - 1);
        lemma_lookup_by_view(a1, a2, cats[n - 1].0, 0);
    }
}

/// The rewards of a node provider depend on its multipliers only through their view.
pub proof fn lemma_rewards_by_view(
    cats: Seq<(RegionNodeTypeCategory, u32)>,
    rates: Seq<Option<NodeRewardRate>>,
    a1: Seq<(RegionNodeTypeCategory, Vec<Dec>)>,
    a2: Seq<(RegionNodeTypeCategory, Vec<Dec>)>,
)
    requires
        assigned_view(a1) == assigned_view(a2),
    ensures
        spec_node_provider_rewards(cats, rates, a1) == spec_node_provider_rewards(cats, rates, a2),
{
    lemma_totals_by_view(cats, rates, a1, a2, cats.len() as int);
}

/// Multiplier `m` recorded under category `cat`: after the category's multipliers, or as a new
/// last category.
pub open spec fn group_push(av: AssignedView, cat: (Seq<char>, Seq<char>), m: Dec) -> AssignedView {
    let i = assoc_pos(av, cat);
    if i >= 0 {
        av.update(i, (cat, av[i].1.push(m)))
    } else {
        av.push((cat, seq![m]))
    }
}

/// A node with its metadata and daily metrics.
pub type NodePerformance = (String, (NodeMetadata, Vec<DailyNodeMetrics>));

/// The nodes of provider `p`, in order.
pub open spec fn provider_nodes(perf: Seq<NodePerformance>, p: Seq<char>) -> Seq<NodePerformance>
    decreases perf.len(),
{
    if perf.len() == 0 {
        Seq::empty()
    } else if perf.last().1.0.node_provider_id@ == p {
        provider_nodes(perf.drop_last(), p).push(perf.last())
    } else {
        provider_nodes(perf.drop_last(), p)
    }
}

/// The multiplier of each node (as stored: its integer part) with its statistics, and the
/// multipliers by category; `None` when a multiplier cannot be computed or stored.
pub open spec fn node_multipliers(nodes: Seq<NodePerformance>, total_days: u64) -> Option<(Seq<(Seq<char>, u64, RewardsMultiplierStats)>, AssignedView)>
    decreases nodes.len(),
{
    if nodes.len() == 0 {
        Some((Seq::empty(), Seq::empty()))
    } else {
        match node_multipliers(nodes.drop_last(), total_days) {
            None => None,
            Some((ms, av)) => {
                let n = nodes.last();
                match spec_node_rewards_multiplier_stats(n.1.1@, total_days) {
                    None => None,
                    Some((m, st)) => match decimal_to_u64(m.mantissa, m.scale) {
                        None => None,
                        Some(mu) => Some((ms.push((n.0@, mu, st)), group_push(av, (n.1.0.region@, n.1.0.node_type@), m))),
                    },
                }
            },
        }
    }
}

/// The rewardable nodes of provider `p` by category, in order.
pub open spec fn provider_rewardables(v: Seq<((String, (String, String)), u32)>, p: Seq<char>) -> Seq<(RegionNodeTypeCategory, u32)>
    decreases v.len(),
{
    if v.len() == 0 {
        Seq::empty()
    } else if v.last().0.0@ == p {
        provider_rewardables(v.drop_last(), p).push((v.last().0.1, v.last().1))
    } else {
        provider_rewardables(v.drop_last(), p)
    }
}

/// The views of category keys.
pub open spec fn rate_keys(rate_of: Seq<(RegionNodeTypeCategory, Option<NodeRewardRate>)>) -> Seq<((Seq<char>, Seq<char>), Option<NodeRewardRate>)> {
    rate_of.map_values(|p: (RegionNodeTypeCategory, Option<NodeRewardRate>)| ((p.0.0@, p.0.1@), p.1))
}

/// The rate of category `cat`: the first given for it.
pub open spec fn rate_for(rate_of: Seq<(RegionNodeTypeCategory, Option<NodeRewardRate>)>, cat: RegionNodeTypeCategory) -> Option<NodeRewardRate> {
    rate_keys(rate_of)[assoc_pos(rate_keys(rate_of), (cat.0@, cat.1@))].1
}

/// The rates of the categories.
pub open spec fn rates_for(cats: Seq<(RegionNodeTypeCategory, u32)>, rate_of: Seq<(RegionNodeTypeCategory, Option<NodeRewardRate>)>) -> Seq<Option<NodeRewardRate>> {
    Seq::new(cats.len(), |i: int| rate_for(rate_of, cats[i].0))
}

/// What provider `p` gets: the multipliers of its nodes and its rewards; `None` when a step
/// fails.
pub open spec fn spec_provider_result(
    p: Seq<char>,
    v: Seq<((String, (String, String)), u32)>,
    perf: Seq<NodePerformance>,
    total_days: u64,
    rate_of: Seq<(RegionNodeTypeCategory, Option<NodeRewardRate>)>,
) -> Option<(Seq<(Seq<char>, u64, RewardsMultiplierStats)>, NodeProviderRewards)> {
    match node_multipliers(provider_nodes(perf, p), total_days) {
        None => None,
        Some((ms, av)) => {
            let cats = provider_rewardables(v, p);
            match spec_node_provider_rewards(cats, rates_for(cats, rate_of), assigned_of(av)) {
                None => None,
                Some(rw) => Some((ms, rw)),
            }
        },
    }
}

/// What each provider gets, in order; `None` when a step fails for one of them.
pub open spec fn spec_providers_results(
    ps: Seq<Seq<char>>,
    v: Seq<((String, (String, String)), u32)>,
    perf: Seq<NodePerformance>,
    total_days: u64,
    rate_of: Seq<(RegionNodeTypeCategory, Option<NodeRewardRate>)>,
) -> Option<Seq<(Seq<char>, Seq<(Seq<char>, u64, RewardsMultiplierStats)>, NodeProviderRewards)>>
    decreases ps.len(),
{
    if ps.len() == 0 {
        Some(Seq::empty())
    } else {
        match spec_providers_results(ps.drop_last(), v, perf, total_days, rate_of) {
            None => None,
            Some(rs) => match spec_provider_result(ps.last(), v, perf, total_days, rate_of) {
                None => None,
                Some((ms, rw)) => Some(rs.push((ps.last(), ms, rw))),
            },
        }
    }
}

/// The view of node multipliers.
pub open spec fn multipliers_view(v: Seq<(String, u64, RewardsMultiplierStats)>) -> Seq<(Seq<char>, u64, RewardsMultiplierStats)> {
    v.map_values(|x: (String, u64, RewardsMultiplierStats)| (x.0@, x.1, x.2))
}

/// What is stored for a node provider: the multiplier of each of its nodes with metrics (its
/// integer part) with the statistics behind it, its rewards, and the record of the computation.
pub struct ProviderRewardsRecord {
    pub node_provider: String,
    pub node_multipliers: Vec<(String, u64, RewardsMultiplierStats)>,
    pub rewards: NodeProviderRewards,
    pub log: String,
}

/// The view of the stored records: provider, multipliers and rewards (their logs are stated by
/// [`provider_log`]).
pub open spec fn records_view(v: Seq<ProviderRewardsRecord>) -> Seq<(Seq<char>, Seq<(Seq<char>, u64, RewardsMultiplierStats)>, NodeProviderRewards)> {
    v.map_values(|r: ProviderRewardsRecord| (r.node_provider@, multipliers_view(r.node_multipliers@), r.rewards))
}

/// The log of record `rec` is the text of a record of the computation that starts with the
/// entries `before` and then the entry for the record's node provider, followed by the steps of
/// the computation.
pub open spec fn provider_log(rec: ProviderRewardsRecord, before: Seq<LogEntry>) -> bool {
    exists|e: Seq<LogEntry>| #[trigger] log_text(e) == rec.log@ && extended(before.push(LogEntry::RewardsForNodeProvider(rec.node_provider)), e)
}

/// Every category with rewardable nodes has a rate.
pub open spec fn rates_known(v: Seq<((String, (String, String)), u32)>, rate_of: Seq<(RegionNodeTypeCategory, Option<NodeRewardRate>)>) -> bool {
    forall|i: int| 0 <= i < v.len() ==> assoc_pos(rate_keys(rate_of), ((#[trigger] v[i]).0.1.0@, v[i].0.1.1@)) >= 0
}

fn group_push_exec(a: &mut Vec<(RegionNodeTypeCategory, Vec<Dec>)>, cat: RegionNodeTypeCategory, m: Dec)
    requires
        m.wf(),
        forall|j: int| 0 <= j < old(a)@.len() ==> all_wf(#[trigger] old(a)@[j].1@),
    ensures
        assigned_view(final(a)@) == group_push(assigned_view(old(a)@), (cat.0@, cat.1@), m),
        forall|i: int| 0 <= i < final(a)@.len() ==> all_wf(#[trigger] final(a)@[i].1@),
{
    let ghost before = assigned_view(a@);
    let ghost k = (cat.0@, cat.1@);
    proof {
        lemma_assoc_pos_bounds(before, k);
    }
    let mut i: usize = 0;
    while i < a.len()
        invariant
            i <= a@.len(),
            before == assigned_view(a@),
            forall|j: int| 0 <= j < i ==> #[trigger] before[j].0 != k,
            a@ == old(a)@,
            k == (cat.0@, cat.1@),
            m.wf(),
            forall|j: int| 0 <= j < old(a)@.len() ==> all_wf(#[trigger] old(a)@[j].1@),
        decreases a.len() - i,
    {
        assert(before[i as int].0 == (a@[i as int].0.0@, a@[i as int].0.1@));
        if str_eq(a[i].0.0.as_str(), cat.0.as_str()) && str_eq(a[i].0.1.as_str(), cat.1.as_str()) {
            proof {
                lemma_assoc_pos_first(before, k, i as int);
            }
            let (c, mut v) = a.remove(i);
            let ghost vv = v@;
            v.push(m);
            assert(all_wf(v@)) by {
                assert(all_wf(old(a)@[i as int].1@));
                assert(vv == old(a)@[i as int].1@);
            }
            a.insert(i, (c, v));
            assert(assigned_view(a@) =~= before.update(i as int, (k, vv.push(m))));
            assert forall|j: int| 0 <= j < a@.len() implies all_wf(#[trigger] a@[j].1@) by {
                if j != i {
                    assert(a@[j] == old(a)@[j]);
                }
            }
            return;
        }
        i = i + 1;
    }
    proof {
        lemma_assoc_pos_none(before, k);
    }
    let mut v: Vec<Dec> = Vec::new();
    v.push(m);
    assert(all_wf(v@));
    a.push((cat, v));
    assert(assigned_view(a@) =~= before.push((k, seq![m])));
    assert forall|j: int| 0 <= j < a@.len() implies all_wf(#[trigger] a@[j].1@) by {
        if j < old(a)@.len() {
            assert(a@[j] == old(a)@[j]);
        }
    }
}

proof fn lemma_assoc_pos_first<K, V>(m: Seq<(K, V)>, k: K, i: int)
    requires
        0 <= i < m.len(),
        m[i].0 == k,
        forall|j: int| 0 <= j < i ==> #[trigger] m[j].0 != k,
    ensures
        assoc_pos(m, k) == i,
    decreases m.len(),
{
    if i < m.len() - 1 {
        assert forall|j: int| 0 <= j < i implies #[trigger] m.drop_last()[j].0 != k by {
            assert(m.drop_last()[j] == m[j]);
        }
        assert(m.drop_last()[i] == m[i]);
        lemma_assoc_pos_first(m.drop_last(), k, i);
    } else {
        lemma_assoc_pos_none(m.drop_last(), k);
    }
}

proof fn lemma_assoc_pos_none<K, V>(m: Seq<(K, V)>, k: K)
    requires
        forall|j: int| 0 <= j < m.len() ==> #[trigger] m[j].0 != k,
    ensures
        assoc_pos(m, k) == -1,
    decreases m.len(),
{
    if m.len() > 0 {
        assert forall|j: int| 0 <= j < m.len() - 1 implies #[trigger] m.drop_last()[j].0 != k by {
            assert(m.drop_last()[j] == m[j]);
        }
        lemma_assoc_pos_none(m.drop_last(), k);
    }
}

fn provider_rewardables_exec(v: &Vec<((String, (String, String)), u32)>, p: &str) -> (r: Vec<(RegionNodeTypeCategory, u32)>)
    ensures
        r@ == provider_rewardables(v@, p@),
{
    let mut r: Vec<(RegionNodeTypeCategory, u32)> = Vec::new();
    let mut i: usize = 0;
    assert(v@.take(0) =~= Seq::<((String, (String, String)), u32)>::empty());
    while i < v.len()
        invariant
            i <= v@.len(),
            r@ == provider_rewardables(v@.take(i as int), p@),
        decreases v.len() - i,
    {
        let ghost t = v@.take(i as int + 1);
        assert(t.drop_last() =~= v@.take(i as int));
        assert(t.last() == v@[i as int]);
        if str_eq(v[i].0.0.as_str(), p) {
            r.push(((v[i].0.1.0.clone(), v[i].0.1.1.clone()), v[i].1));
        }
        i = i + 1;
    }
    assert(v@.take(v@.len() as int) =~= v@);
    r
}

fn find_rate(rate_of: &Vec<(RegionNodeTypeCategory, Option<NodeRewardRate>)>, cat: &RegionNodeTypeCategory) -> (r: usize)
    requires
        assoc_pos(rate_keys(rate_of@), (cat.0@, cat.1@)) >= 0,
    ensures
        r as int == assoc_pos(rate_keys(rate_of@), (cat.0@, cat.1@)),
        r < rate_of@.len(),
{
    let ghost keys = rate_keys(rate_of@);
    let ghost k = (cat.0@, cat.1@);
    proof {
        lemma_assoc_pos_bounds(keys, k);
    }
    let mut i: usize = 0;
    while i < rate_of.len()
        invariant
            i <= rate_of@.len(),
            keys == rate_keys(rate_of@),
            assoc_pos(keys, k) >= 0,
            forall|j: int| 0 <= j < i ==> #[trigger] keys[j].0 != k,
            k == (cat.0@, cat.1@),
        decreases rate_of.len() - i,
    {
        assert(keys[i as int].0 == (rate_of@[i as int].0.0@, rate_of@[i as int].0.1@));
        if str_eq(rate_of[i].0.0.as_str(), cat.0.as_str()) && str_eq(rate_of[i].0.1.as_str(), cat.1.as_str()) {
            proof {
                lemma_assoc_pos_first(keys, k, i as int);
            }
            return i;
        }
        i = i + 1;
    }
    proof {
        lemma_assoc_pos_none(keys, k);
    }
    0
}

proof fn lemma_provider_rewardables_known(v: Seq<((String, (String, String)), u32)>, p: Seq<char>, rate_of: Seq<(RegionNodeTypeCategory, Option<NodeRewardRate>)>)
    requires
        rates_known(v, rate_of),
    ensures
        forall|i: int|
            0 <= i < provider_rewardables(v, p).len() ==> assoc_pos(
                rate_keys(rate_of),
                ((#[trigger] provider_rewardables(v, p)[i]).0.0@, provider_rewardables(v, p)[i].0.1@),
            ) >= 0,
    decreases v.len(),
{
    if v.len() > 0 {
        assert forall|i: int| 0 <= i < v.drop_last().len() implies assoc_pos(rate_keys(rate_of), ((#[trigger] v.drop_last()[i]).0.1.0@, v.drop_last()[i].0.1.1@)) >= 0 by {
            assert(v.drop_last()[i] == v[i]);
        }
        lemma_provider_rewardables_known(v.drop_last(), p, rate_of);
        let prev = provider_rewardables(v.drop_last(), p);
        let cur = provider_rewardables(v, p);
        assert(v[v.len() - 1] == v.last());
        assert forall|i: int| 0 <= i < cur.len() implies assoc_pos(rate_keys(rate_of), ((#[trigger] cur[i]).0.0@, cur[i].0.1@)) >= 0 by {
            if i < prev.len() {
                assert(cur[i] == prev[i]);
            } else {
                assert(cur[i] == (v.last().0.1, v.last().1));
            }
        }
    }
}

fn rates_exec(cats: &Vec<(RegionNodeTypeCategory, u32)>, rate_of: &Vec<(RegionNodeTypeCategory, Option<NodeRewardRate>)>) -> (r: Vec<Option<NodeRewardRate>>)
    requires
        forall|i: int| 0 <= i < cats@.len() ==> assoc_pos(rate_keys(rate_of@), ((#[trigger] cats@[i]).0.0@, cats@[i].0.1@)) >= 0,
    ensures
        r@ == rates_for(cats@, rate_of@),
{
    let mut r: Vec<Option<NodeRewardRate>> = Vec::new();
    let mut i: usize = 0;
    while i < cats.len()
        invariant
            i <= cats@.len(),
            forall|j: int| 0 <= j < cats@.len() ==> assoc_pos(rate_keys(rate_of@), ((#[trigger] cats@[j]).0.0@, cats@[j].0.1@)) >= 0,
            r@ =~= rates_for(cats@, rate_of@).take(i as int),
        decreases cats.len() - i,
    {
        let k = find_rate(rate_of, &cats[i].0);
        assert(rate_keys(rate_of@)[k as int].1 == rate_of@[k as int].1);
        r.push(rate_of[k].1);
        i = i + 1;
    }
    r
}

proof fn lemma_provider_nodes_prefix(perf: Seq<NodePerformance>, p: Seq<char>, j: int)
    requires
        0 <= j <= perf.len(),
    ensures
        provider_nodes(perf.take(j), p).len() <= provider_nodes(perf, p).len(),
        provider_nodes(perf, p).take(provider_nodes(perf.take(j), p).len() as int) == provider_nodes(perf.take(j), p),
    decreases perf.len(),
{
    if j == perf.len() {
        assert(perf.take(j) =~= perf);
        assert(provider_nodes(perf, p).take(provider_nodes(perf, p).len() as int) =~= provider_nodes(perf, p));
    } else {
        let d = perf.drop_last();
        assert(d.take(j) =~= perf.take(j));
        lemma_provider_nodes_prefix(d, p, j);
        let a = provider_nodes(perf.take(j), p);
        let b = provider_nodes(d, p);
        if perf.last().1.0.node_provider_id@ == p {
            assert(provider_nodes(perf, p).take(a.len() as int) =~= b.take(a.len() as int));
        }
    }
}

proof fn lemma_node_multipliers_prefix_none(ns: Seq<NodePerformance>, total_days: u64, k: int)
    requires
        0 <= k <= ns.len(),
        node_multipliers(ns.take(k), total_days) is None,
    ensures
        node_multipliers(ns, total_days) is None,
    decreases ns.len(),
{
    if k == ns.len() {
        assert(ns.take(k) =~= ns);
    } else {
        assert(ns.drop_last().take(k) =~= ns.take(k));
        lemma_node_multipliers_prefix_none(ns.drop_last(), total_days, k);
    }
}

impl RewardsManager {
    /// What provider `p` gets (see [`spec_provider_result`]), recording each step.
    fn provider_result(
        &mut self,
        p: &String,
        v: &Vec<((String, (String, String)), u32)>,
        perf: &Vec<NodePerformance>,
        total_days: u64,
        rate_of: &Vec<(RegionNodeTypeCategory, Option<NodeRewardRate>)>,
    ) -> (r: Option<(Vec<(String, u64, RewardsMultiplierStats)>, NodeProviderRewards)>)
        requires
            old(self).logger.wf(),
            rates_known(v@, rate_of@),
        ensures
            final(self).logger.wf(),
            extended(old(self).logger.entries@.push(LogEntry::RewardsForNodeProvider(*p)), final(self).logger.entries@),
            match r {
                Some(x) => spec_provider_result(p@, v@, perf@, total_days, rate_of@) == Some((multipliers_view(x.0@), x.1)),
                None => spec_provider_result(p@, v@, perf@, total_days, rate_of@) is None,
            },
    {
        self.logger.add_entry(LogEntry::RewardsForNodeProvider(p.clone()));
        let ghost head = self.logger.entries@;
        let mut ms: Vec<(String, u64, RewardsMultiplierStats)> = Vec::new();
        let mut assigned: Vec<(RegionNodeTypeCategory, Vec<Dec>)> = Vec::new();
        let mut i: usize = 0;
        assert(perf@.take(0) =~= Seq::<NodePerformance>::empty());
        assert(multipliers_view(ms@) =~= Seq::<(Seq<char>, u64, RewardsMultiplierStats)>::empty());
        assert(assigned_view(assigned@) =~= Seq::<((Seq<char>, Seq<char>), Seq<Dec>)>::empty());
        while i < perf.len()
            invariant
                i <= perf@.len(),
                self.logger.wf(),
                head == old(self).logger.entries@.push(LogEntry::RewardsForNodeProvider(*p)),
                extended(head, self.logger.entries@),
                node_multipliers(provider_nodes(perf@.take(i as int), p@), total_days) == Some((multipliers_view(ms@), assigned_view(assigned@))),
                forall|j: int| 0 <= j < assigned@.len() ==> all_wf(#[trigger] assigned@[j].1@),
            decreases perf.len() - i,
        {
            let ghost t = perf@.take(i as int + 1);
            assert(t.drop_last() =~= perf@.take(i as int));
            assert(t.last() == perf@[i as int]);
            let node = &perf[i];
            if str_eq(node.1.0.node_provider_id.as_str(), p.as_str()) {
                let ghost ns = provider_nodes(t, p@);
                assert(ns.drop_last() == provider_nodes(perf@.take(i as int), p@));
                assert(ns.last() == perf@[i as int]);
                self.logger.add_entry(LogEntry::ComputeRewardMultiplierForNode(node.0.clone()));
                match self.node_rewards_multiplier(&node.1.1, total_days) {
                    None => {
                        proof {
                            lemma_provider_nodes_prefix(perf@, p@, i as int + 1);
                            lemma_node_multipliers_prefix_none(provider_nodes(perf@, p@), total_days, ns.len() as int);
                        }
                        return None;
                    },
                    Some((m, st)) => {
                        let mu = match to_u64(m) {
                            Some(u) => u,
                            None => {
                                proof {
                                    lemma_provider_nodes_prefix(perf@, p@, i as int + 1);
                                    lemma_node_multipliers_prefix_none(provider_nodes(perf@, p@), total_days, ns.len() as int);
                                }
                                return None;
                            },
                        };
                        let ghost before = multipliers_view(ms@);
                        ms.push((node.0.clone(), mu, st));
                        assert(multipliers_view(ms@) =~= before.push((node.0@, mu, st)));
                        group_push_exec(&mut assigned, (node.1.0.region.clone(), node.1.0.node_type.clone()), m);
                    },
                }
            } else {
                assert(provider_nodes(t, p@) == provider_nodes(perf@.take(i as int), p@));
            }
            i = i + 1;
        }
        assert(perf@.take(perf@.len() as int) =~= perf@);
        let cats = provider_rewardables_exec(v, p.as_str());
        proof {
            lemma_provider_rewardables_known(v@, p@, rate_of@);
        }
        let rates = rates_exec(&cats, rate_of);
        let rw = self.node_provider_rewards(&assigned, &cats, &rates);
        proof {
            let av = assigned_view(assigned@);
            assert(assigned_view(assigned_of(av)) == av);
            lemma_rewards_by_view(cats@, rates@, assigned@, assigned_of(av));
        }
        match rw {
            Some(x) => Some((ms, x)),
            None => None,
        }
    }
}

/// The providers of the rewardable nodes.
pub open spec fn providers_of(v: Seq<((String, (String, String)), u32)>) -> Seq<Seq<char>> {
    first_occurrences(v.map_values(|x: ((String, (String, String)), u32)| x.0.0@))
}

fn unique_providers(v: &Vec<((String, (String, String)), u32)>) -> (r: Vec<String>)
    ensures
        r@.map_values(|s: String| s@) == providers_of(v@),
{
    let ghost keys = v@.map_values(|x: ((String, (String, String)), u32)| x.0.0@);
    let mut r: Vec<String> = Vec::new();
    let mut i: usize = 0;
    assert(keys.take(0) =~= Seq::<Seq<char>>::empty());
    assert(r@.map_values(|s: String| s@) =~= Seq::<Seq<char>>::empty());
    while i < v.len()
        invariant
            i <= v@.len(),
            keys == v@.map_values(|x: ((String, (String, String)), u32)| x.0.0@),
            r@.map_values(|s: String| s@) == first_occurrences(keys.take(i as int)),
        decreases v.len() - i,
    {
        let ghost t = keys.take(i as int + 1);
        assert(t.drop_last() =~= keys.take(i as int));
        assert(t.last() == v@[i as int].0.0@);
        let ghost o = r@.map_values(|s: String| s@);
        let mut seen = false;
        let mut j: usize = 0;
        while j < r.len()
            invariant
                j <= r@.len(),
                i < v@.len(),
                o == r@.map_values(|s: String| s@),
                seen <==> exists|k: int| 0 <= k < j && #[trigger] o[k] == v@[i as int].0.0@,
            decreases r.len() - j,
        {
            if str_eq(r[j].as_str(), v[i].0.0.as_str()) {
                assert(o[j as int] == v@[i as int].0.0@);
                seen = true;
            }
            j = j + 1;
        }
        if !seen {
            r.push(v[i].0.0.clone());
            assert(!o.contains(v@[i as int].0.0@));
            assert(r@.map_values(|s: String| s@) =~= o.push(v@[i as int].0.0@));
        } else {
            assert(o.contains(v@[i as int].0.0@));
        }
        i = i + 1;
    }
    assert(keys.take(v@.len() as int) =~= keys);
    r
}

proof fn lemma_results_prefix_none(
    ps: Seq<Seq<char>>,
    v: Seq<((String, (String, String)), u32)>,
    perf: Seq<NodePerformance>,
    total_days: u64,
    rate_of: Seq<(RegionNodeTypeCategory, Option<NodeRewardRate>)>,
    k: int,
)
    requires
        0 <= k <= ps.len(),
        spec_providers_results(ps.take(k), v, perf, total_days, rate_of) is None,
    ensures
        spec_providers_results(ps, v, perf, total_days, rate_of) is None,
    decreases ps.len(),
{
    if k == ps.len() {
        assert(ps.take(k) =~= ps);
    } else {
        assert(ps.drop_last().take(k) =~= ps.take(k));
        lemma_results_prefix_none(ps.drop_last(), v, perf, total_days, rate_of, k);
    }
}

impl RewardsManager {
    /// The rewards of every node provider of `node_providers_rewardables` (in the order in which
    /// the providers first come up) over the reward period, with the time under which they are
    /// stored (the end of the period): the multiplier of each of the provider's nodes in
    /// `assigned_nodes_performance` (its integer part, as stored) with its statistics, the
    /// provider's rewards from its rewardable nodes with the rates `rate_of` of their categories
    /// (see [`spec_provider_result`]), and the text of the record of the computation (see
    /// [`provider_log`]: the first provider's follows the entries recorded before), which is then
    /// emptied. `None` when a step fails (an overflow, a value that does not fit).
    pub fn compute_node_providers_rewards(
        &mut self,
        node_providers_rewardables: &Vec<((String, (String, String)), u32)>,
        assigned_nodes_performance: &Vec<NodePerformance>,
        rewarding_period: DateTimeRange,
        rate_of: &Vec<(RegionNodeTypeCategory, Option<NodeRewardRate>)>,
    ) -> (r: Option<(u64, Vec<ProviderRewardsRecord>)>)
        requires
            old(self).logger.wf(),
            rewarding_period.wf(),
            nanos_fit(rewarding_period.end_secs as int),
            rates_known(node_providers_rewardables@, rate_of@),
        ensures
            final(self).logger.wf(),
            ({
                let res = spec_providers_results(
                    providers_of(node_providers_rewardables@),
                    node_providers_rewardables@,
                    assigned_nodes_performance@,
                    rewarding_period.spec_days(),
                    rate_of@,
                );
                match r {
                    Some(x) => x.0 == (rewarding_period.end_secs * 1_000_000_000) as u64 && res == Some(records_view(x.1@)),
                    None => res is None,
                }
            }),
            r matches Some(x) ==> forall|k: int|
                0 <= k < x.1@.len() ==> provider_log(#[trigger] x.1@[k], if k == 0 { old(self).logger.entries@ } else { Seq::empty() }),
            r matches Some(x) ==> (x.1@.len() > 0 ==> final(self).logger.entries@.len() == 0),
    {
        let total_days = rewarding_period.days_between();
        let rewards_ts = rewarding_period.end_timestamp_nanos();
        let providers = unique_providers(node_providers_rewardables);
        let ghost ps = providers_of(node_providers_rewardables@);
        let mut records: Vec<ProviderRewardsRecord> = Vec::new();
        let mut k: usize = 0;
        assert(ps.take(0) =~= Seq::<Seq<char>>::empty());
        assert(records_view(records@) =~= Seq::<(Seq<char>, Seq<(Seq<char>, u64, RewardsMultiplierStats)>, NodeProviderRewards)>::empty());
        while k < providers.len()
            invariant
                k <= providers@.len(),
                providers@.map_values(|s: String| s@) == ps,
                ps == providers_of(node_providers_rewardables@),
                self.logger.wf(),
                rates_known(node_providers_rewardables@, rate_of@),
                total_days == rewarding_period.spec_days(),
                spec_providers_results(ps.take(k as int), node_providers_rewardables@, assigned_nodes_performance@, total_days, rate_of@)
                    == Some(records_view(records@)),
                records@.len() == k,
                k == 0 ==> self.logger.entries@ == old(self).logger.entries@,
                k > 0 ==> self.logger.entries@.len() == 0,
                forall|j: int| 0 <= j < k ==> provider_log(#[trigger] records@[j], if j == 0 { old(self).logger.entries@ } else { Seq::empty() }),
            decreases providers.len() - k,
        {
            let ghost t = ps.take(k as int + 1);
            assert(t.drop_last() =~= ps.take(k as int));
            assert(t.last() == providers@[k as int]@);
            let p = &providers[k];
            match self.provider_result(p, node_providers_rewardables, assigned_nodes_performance, total_days, rate_of) {
                None => {
                    proof {
                        assert(spec_providers_results(t, node_providers_rewardables@, assigned_nodes_performance@, total_days, rate_of@) is None);
                        lemma_results_prefix_none(ps, node_providers_rewardables@, assigned_nodes_performance@, total_days, rate_of@, k as int + 1);
                    }
                    return None;
                },
                Some((ms, rw)) => {
                    let ghost entries = self.logger.entries@;
                    let log = self.logger.get_log();
                    self.logger.flush_log_entries();
                    let ghost before = records_view(records@);
                    let ghost recs0 = records@;
                    let rec = ProviderRewardsRecord { node_provider: p.clone(), node_multipliers: ms, rewards: rw, log };
                    let ghost rv = (rec.node_provider@, multipliers_view(rec.node_multipliers@), rec.rewards);
                    proof {
                        assert(log_text(entries) == rec.log@);
                        assert(provider_log(rec, if k == 0 { old(self).logger.entries@ } else { Seq::empty() }));
                    }
                    records.push(rec);
                    assert(records_view(records@) =~= before.push(rv));
                    assert(forall|j: int| 0 <= j < k ==> records@[j] == recs0[j]);
                },
            }
            k = k + 1;
        }
        assert(ps.take(ps.len() as int) =~= ps);
        Some((rewards_ts, records))
    }
}

} // verus!
