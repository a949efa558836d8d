//! Healing the network: which subnets to fix first, how many nodes to replace, and which of the
//! candidate changes to propose.
use vstd::prelude::*;
use crate::features::opt_view;
use crate::network::{before_dash, before_dash_pub, has_principal_pub, principals, without_principals_of, CordonedFeature, DecentralizedSubnet};
use crate::removal::{health_of, unhealthy_nodes, unhealthy_of};
use crate::rules::{business_rules, texts};
use crate::selection::{join_sep, join_texts};
use crate::text::{dec, push_decimal, push_str};
use crate::compare::{same_view, score_difference, ScoreDifference};
use crate::response::{response_of, SubnetChangeResponse};
use crate::change::SubnetChange;
use crate::network::{remove_each, subnet_without, NetworkError};
use crate::request::{is_cordoned, optimize_outcome, removal_choice, resize_after_removal, resize_outcome, usable, SubnetChangeRequest};
use crate::resize::remaining;
use crate::score::{NakamotoScore, MAX_COEFFICIENT};
use crate::subnet::{copy_nodes, str_eq, HealthStatus, Node};

verus! {

/// The subnets fixed before all others, by name.
pub open spec fn important_subnets() -> Seq<Seq<char>> {
    seq!["NNS"@, "SNS"@, "Bitcoin"@, "Internet Identity"@, "tECDSA signing"@]
}

/// Whether the subnet named `name` is one of the important subnets.
pub fn is_important(name: &str) -> (r: bool)
    ensures
        r == important_subnets().contains(name@),
{
    let names = vec!["NNS", "SNS", "Bitcoin", "Internet Identity", "tECDSA signing"];
    assert(names@.len() == 5);
    let mut i: usize = 0;
    while i < 5
        invariant
            i <= 5,
            names@.len() == 5,
            forall|j: int| 0 <= j < 5 ==> #[trigger] names@[j]@ == important_subnets()[j],
            forall|j: int| 0 <= j < i ==> important_subnets()[j] != name@,
        decreases 5 - i,
    {
        if str_eq(names[i], name) {
            assert(important_subnets()[i as int] == name@);
            return true;
        }
        i = i + 1;
    }
    false
}

/// A subnet to heal: its name, the subnet, its unhealthy nodes, and its nodes with a cordoned
/// feature value (with why).
#[derive(Debug, Clone)]
pub struct NetworkHealSubnet {
    pub name: String,
    pub decentralized_subnet: DecentralizedSubnet,
    pub unhealthy_nodes: Vec<Node>,
    pub cordoned_nodes: Vec<(Node, String)>,
}

/// The priority of a subnet to heal: important subnets first, then larger subnets.
pub open spec fn heal_priority(s: NetworkHealSubnet) -> (bool, int) {
    (important_subnets().contains(s.name@), s.decentralized_subnet.nodes@.len() as int)
}

/// Whether priority `a` is below `b`.
pub open spec fn priority_lt(a: (bool, int), b: (bool, int)) -> bool {
    (!a.0 && b.0) || (a.0 == b.0 && a.1 < b.1)
}

impl NetworkHealSubnet {
    /// Whether this subnet is healed after `other` (its priority is lower).
    pub fn heals_after(&self, other: &NetworkHealSubnet) -> (r: bool)
        ensures
            r == priority_lt(heal_priority(*self), heal_priority(*other)),
    {
        let a = is_important(self.name.as_str());
        let b = is_important(other.name.as_str());
        (!a && b) || (a == b && self.decentralized_subnet.nodes.len() < other.decentralized_subnet.nodes.len())
    }
}

/// A subnet to heal, as a plan entry: the position of the subnet in the request, whether its
/// unhealthy nodes are to be replaced, and whether its cordoned nodes are.
pub type PlanEntry = (usize, bool, bool);

/// The priority of the subnet of a plan entry (see [`heal_priority`]).
pub open spec fn entry_priority(subnets: Seq<(String, DecentralizedSubnet)>, e: PlanEntry) -> (bool, int) {
    (important_subnets().contains(subnets[e.0 as int].0@), subnets[e.0 as int].1.nodes@.len() as int)
}

/// The plan ordered by priority, highest first, keeping the order of equal priorities (a stable
/// insertion sort).
pub open spec fn sort_plan(subnets: Seq<(String, DecentralizedSubnet)>, p: Seq<PlanEntry>) -> Seq<PlanEntry>
    decreases p.len(),
{
    if p.len() == 0 {
        Seq::empty()
    } else {
        let o = sort_plan(subnets, p.drop_last());
        o.insert(plan_pos(subnets, o, p.last(), o.len() as int), p.last())
    }
}

/// Where entry `x` goes among `o`, looking backwards from `pos`: after the last entry whose
/// priority is not lower than its own.
pub open spec fn plan_pos(subnets: Seq<(String, DecentralizedSubnet)>, o: Seq<PlanEntry>, x: PlanEntry, pos: int) -> int
    decreases pos,
{
    if pos <= 0 {
        0
    } else if priority_lt(entry_priority(subnets, o[pos - 1]), entry_priority(subnets, x)) {
        plan_pos(subnets, o, x, pos - 1)
    } else {
        pos
    }
}

proof fn lemma_plan_pos_bounds(subnets: Seq<(String, DecentralizedSubnet)>, o: Seq<PlanEntry>, x: PlanEntry, pos: int)
    requires
        0 <= pos <= o.len(),
    ensures
        0 <= plan_pos(subnets, o, x, pos) <= pos,
    decreases pos,
{
    if pos > 0 {
        lemma_plan_pos_bounds(subnets, o, x, pos - 1);
    }
}

proof fn lemma_sort_plan_len(subnets: Seq<(String, DecentralizedSubnet)>, p: Seq<PlanEntry>)
    ensures
        sort_plan(subnets, p).len() == p.len(),
        forall|k: int| 0 <= k < p.len() ==> exists|j: int| 0 <= j < p.len() && #[trigger] sort_plan(subnets, p)[k] == p[j],
    decreases p.len(),
{
    if p.len() > 0 {
        lemma_sort_plan_len(subnets, p.drop_last());
        let o = sort_plan(subnets, p.drop_last());
        let q = plan_pos(subnets, o, p.last(), o.len() as int);
        lemma_plan_pos_bounds(subnets, o, p.last(), o.len() as int);
        assert forall|k: int| 0 <= k < p.len() implies exists|j: int| 0 <= j < p.len() && #[trigger] sort_plan(subnets, p)[k] == p[j] by {
            if k < q {
                assert(sort_plan(subnets, p)[k] == o[k]);
                let j = choose|j: int| 0 <= j < p.len() - 1 && o[k] == p.drop_last()[j];
                assert(p[j] == p.drop_last()[j]);
            } else if k == q {
                assert(sort_plan(subnets, p)[k] == p[p.len() - 1]);
            } else {
                assert(sort_plan(subnets, p)[k] == o[k - 1]);
                let j = choose|j: int| 0 <= j < p.len() - 1 && o[k - 1] == p.drop_last()[j];
                assert(p[j] == p.drop_last()[j]);
            }
        }
    }
}

fn entry_heals_after(subnets: &Vec<(String, DecentralizedSubnet)>, a: PlanEntry, b: PlanEntry) -> (r: bool)
    requires
        a.0 < subnets@.len(),
        b.0 < subnets@.len(),
    ensures
        r == priority_lt(entry_priority(subnets@, a), entry_priority(subnets@, b)),
{
    let ia = is_important(subnets[a.0].0.as_str());
    let ib = is_important(subnets[b.0].0.as_str());
    (!ia && ib) || (ia == ib && subnets[a.0].1.nodes.len() < subnets[b.0].1.nodes.len())
}

/// The plan ordered by priority (see [`sort_plan`]).
fn sort_plan_exec(subnets: &Vec<(String, DecentralizedSubnet)>, p: &Vec<PlanEntry>) -> (r: Vec<PlanEntry>)
    requires
        forall|k: int| 0 <= k < p@.len() ==> (#[trigger] p@[k]).0 < subnets@.len(),
    ensures
        r@ == sort_plan(subnets@, p@),
{
    let mut out: Vec<PlanEntry> = Vec::new();
    let mut i: usize = 0;
    assert(p@.take(0) =~= Seq::<PlanEntry>::empty());
    while i < p.len()
        invariant
            i <= p@.len(),
            out@ == sort_plan(subnets@, p@.take(i as int)),
            out@.len() == i,
            forall|k: int| 0 <= k < p@.len() ==> (#[trigger] p@[k]).0 < subnets@.len(),
            forall|k: int| 0 <= k < out@.len() ==> (#[trigger] out@[k]).0 < subnets@.len(),
        decreases p.len() - i,
    {
        let ghost t = p@.take(i as int + 1);
        assert(t.drop_last() =~= p@.take(i as int));
        assert(t.last() == p@[i as int]);
        let x = p[i];
        let mut pos = out.len();
        while pos > 0 && entry_heals_after(subnets, out[pos - 1], x)
            invariant
                pos <= out@.len(),
                x.0 < subnets@.len(),
                forall|k: int| 0 <= k < out@.len() ==> (#[trigger] out@[k]).0 < subnets@.len(),
                plan_pos(subnets@, out@, x, out@.len() as int) == plan_pos(subnets@, out@, x, pos as int),
            decreases pos,
        {
            pos = pos - 1;
        }
        proof {
            lemma_plan_pos_bounds(subnets@, out@, x, out@.len() as int);
            lemma_sort_plan_len(subnets@, t);
        }
        let ghost before = out@;
        out.insert(pos, x);
        assert forall|k: int| 0 <= k < out@.len() implies (#[trigger] out@[k]).0 < subnets@.len() by {
            if k < pos {
                assert(out@[k] == before[k]);
            } else if k > pos {
                assert(out@[k] == before[k - 1]);
            }
        }
        i = i + 1;
    }
    assert(p@.take(p@.len() as int) =~= p@);
    out
}

/// The explanation of the first cordoned feature value that node `n` has, from position `j` of
/// the cordoned features on (an absent explanation is empty).
pub open spec fn first_cordon(n: Node, cf: Seq<CordonedFeature>, j: int) -> Option<Seq<char>>
    decreases cf.len() - j,
{
    if j < 0 || j >= cf.len() {
        None
    } else if n.features.spec_get(cf[j].feature) == Some(cf[j].value@) {
        Some(
            match cf[j].explanation {
                Some(e) => e@,
                None => Seq::empty(),
            },
        )
    } else {
        first_cordon(n, cf, j + 1)
    }
}

/// The nodes with a cordoned feature value, each with the explanation of the first such value.
pub open spec fn cordoned_in(nodes: Seq<Node>, cf: Seq<CordonedFeature>) -> Seq<(Node, Seq<char>)>
    decreases nodes.len(),
{
    if nodes.len() == 0 {
        Seq::empty()
    } else {
        let r = cordoned_in(nodes.drop_last(), cf);
        match first_cordon(nodes.last(), cf, 0) {
            Some(e) => r.push((nodes.last(), e)),
            None => r,
        }
    }
}

/// The view of nodes paired with texts.
pub open spec fn pairs_view(v: Seq<(Node, String)>) -> Seq<(Node, Seq<char>)> {
    v.map_values(|p: (Node, String)| (p.0, p.1@))
}

fn cordon_of(n: &Node, cf: &Vec<CordonedFeature>) -> (r: Option<String>)
    ensures
        opt_view(r) == first_cordon(*n, cf@, 0),
{
    let mut j: usize = 0;
    while j < cf.len()
        invariant
            j <= cf@.len(),
            first_cordon(*n, cf@, 0) == first_cordon(*n, cf@, j as int),
        decreases cf.len() - j,
    {
        match n.get_feature(&cf[j].feature) {
            Some(v) => {
                if str_eq(v.as_str(), cf[j].value.as_str()) {
                    return match &cf[j].explanation {
                        Some(e) => Some(e.clone()),
                        None => Some(String::new()),
                    };
                }
            },
            None => {},
        }
        j = j + 1;
    }
    None
}

/// The nodes with a cordoned feature value (see [`cordoned_in`]).
pub fn cordoned_nodes_of(nodes: &Vec<Node>, cf: &Vec<CordonedFeature>) -> (r: Vec<(Node, String)>)
    ensures
        pairs_view(r@) == cordoned_in(nodes@, cf@),
{
    let mut r: Vec<(Node, String)> = Vec::new();
    let mut i: usize = 0;
    assert(pairs_view(r@) =~= Seq::<(Node, Seq<char>)>::empty());
    while i < nodes.len()
        invariant
            i <= nodes@.len(),
            pairs_view(r@) == cordoned_in(nodes@.take(i as int), cf@),
        decreases nodes.len() - i,
    {
        let ghost t = nodes@.take(i as int + 1);
        assert(t.drop_last() =~= nodes@.take(i as int));
        assert(t.last() == nodes@[i as int]);
        let ghost before = r@;
        match cordon_of(&nodes[i], cf) {
            Some(e) => {
                r.push((nodes[i].copied(), e));
                assert(pairs_view(r@) =~= pairs_view(before).push((nodes@[i as int], r@[r@.len() - 1].1@)));
            },
            None => {},
        }
        i = i + 1;
    }
    assert(nodes@.take(nodes@.len() as int) =~= nodes@);
    r
}

/// The subnets among the first `n` with a node that is not known to be healthy, as plan
/// entries whose unhealthy nodes are to be replaced.
pub open spec fn unhealthy_plan(subnets: Seq<(String, DecentralizedSubnet)>, healths: Seq<(String, HealthStatus)>, n: int) -> Seq<PlanEntry>
    decreases n,
{
    if n <= 0 {
        Seq::empty()
    } else {
        let r = unhealthy_plan(subnets, healths, n - 1);
        if unhealthy_nodes(healths, subnets[n - 1].1.nodes@).len() > 0 {
            r.push(((n - 1) as usize, true, false))
        } else {
            r
        }
    }
}

/// The subnets among the first `n` with a node with a cordoned feature value, as plan entries
/// whose cordoned nodes are to be replaced.
pub open spec fn cordoned_plan(subnets: Seq<(String, DecentralizedSubnet)>, cf: Seq<CordonedFeature>, n: int) -> Seq<PlanEntry>
    decreases n,
{
    if n <= 0 {
        Seq::empty()
    } else {
        let r = cordoned_plan(subnets, cf, n - 1);
        if cordoned_in(subnets[n - 1].1.nodes@, cf).len() > 0 {
            r.push(((n - 1) as usize, false, true))
        } else {
            r
        }
    }
}

/// The first position of an entry for subnet `i`, or -1.
pub open spec fn entry_pos(p: Seq<PlanEntry>, i: usize) -> int
    decreases p.len(),
{
    if p.len() == 0 {
        -1
    } else if entry_pos(p.drop_last(), i) >= 0 {
        entry_pos(p.drop_last(), i)
    } else if p.last().0 == i {
        p.len() - 1
    } else {
        -1
    }
}

/// The plan `p` with the entries `c` merged in turn: an entry for a subnet already planned marks
/// its cordoned nodes to be replaced, another one comes last.
pub open spec fn merge_plan(p: Seq<PlanEntry>, c: Seq<PlanEntry>) -> Seq<PlanEntry>
    decreases c.len(),
{
    if c.len() == 0 {
        p
    } else {
        let q = merge_plan(p, c.drop_last());
        let k = entry_pos(q, c.last().0);
        if k >= 0 {
            q.update(k, (q[k].0, q[k].1, true))
        } else {
            q.push(c.last())
        }
    }
}

/// Whether the nodes of subnet `i` break a business rule.
pub open spec fn is_violating(subnets: Seq<(String, DecentralizedSubnet)>, i: int) -> bool {
    business_rules(subnets[i].1.id@, subnets[i].1.nodes@).0 > 0
}

/// The plan `p` with each of the first `n` subnets that breaks a business rule and is not planned
/// yet added last, in order.
pub open spec fn add_violating(p: Seq<PlanEntry>, subnets: Seq<(String, DecentralizedSubnet)>, n: int) -> Seq<PlanEntry>
    decreases n,
{
    if n <= 0 {
        p
    } else {
        let q = add_violating(p, subnets, n - 1);
        if is_violating(subnets, n - 1) && entry_pos(q, (n - 1) as usize) < 0 {
            q.push(((n - 1) as usize, false, false))
        } else {
            q
        }
    }
}

/// The entries of `p` with cordoned nodes to replace, or (where `optimize`) for a subnet that
/// breaks a business rule.
pub open spec fn keep_plan(p: Seq<PlanEntry>, subnets: Seq<(String, DecentralizedSubnet)>, optimize: bool) -> Seq<PlanEntry>
    decreases p.len(),
{
    if p.len() == 0 {
        Seq::empty()
    } else {
        let r = keep_plan(p.drop_last(), subnets, optimize);
        let e = p.last();
        if e.2 || (optimize && is_violating(subnets, e.0 as int)) {
            r.push(e)
        } else {
            r
        }
    }
}

/// The subnets to fix, in the order in which they are fixed: those with unhealthy nodes; where
/// `remove_cordoned`, those with cordoned nodes; where `optimize`, those that break a business
/// rule; where not `heal`, only those with cordoned nodes or (where `optimize`) breaking a rule.
/// The most important and largest subnets come first.
pub open spec fn fix_plan(
    subnets: Seq<(String, DecentralizedSubnet)>,
    healths: Seq<(String, HealthStatus)>,
    cf: Seq<CordonedFeature>,
    remove_cordoned: bool,
    optimize: bool,
    heal: bool,
) -> Seq<PlanEntry> {
    let n = subnets.len() as int;
    let p1 = sort_plan(subnets, unhealthy_plan(subnets, healths, n));
    let p2 = if remove_cordoned {
        merge_plan(p1, sort_plan(subnets, cordoned_plan(subnets, cf, n)))
    } else {
        p1
    };
    let p3 = if optimize {
        add_violating(p2, subnets, n)
    } else {
        p2
    };
    let p4 = if heal {
        p3
    } else {
        keep_plan(p3, subnets, optimize)
    };
    sort_plan(subnets, p4)
}

/// Every entry of the plan is for one of `n` subnets.
pub open spec fn entries_in(p: Seq<PlanEntry>, n: int) -> bool {
    forall|k: int| 0 <= k < p.len() ==> (#[trigger] p[k]).0 < n
}

fn find_entry(p: &Vec<PlanEntry>, i: usize) -> (r: Option<usize>)
    ensures
        match r {
            Some(k) => k < p@.len() && k == entry_pos(p@, i),
            None => entry_pos(p@, i) == -1,
        },
{
    let mut k: usize = 0;
    while k < p.len()
        invariant
            k <= p@.len(),
            entry_pos(p@.take(k as int), i) == -1,
        decreases p.len() - k,
    {
        let ghost t = p@.take(k as int + 1);
        assert(t.drop_last() =~= p@.take(k as int));
        if p[k].0 == i {
            proof {
                lemma_entry_pos_prefix(p@, k as int + 1, i);
            }
            return Some(k);
        }
        k = k + 1;
    }
    assert(p@.take(p@.len() as int) =~= p@);
    None
}

proof fn lemma_entry_pos_prefix(p: Seq<PlanEntry>, k: int, i: usize)
    requires
        0 <= k <= p.len(),
        entry_pos(p.take(k), i) >= 0,
    ensures
        entry_pos(p, i) == entry_pos(p.take(k), i),
    decreases p.len() - k,
{
    if k < p.len() {
        assert(p.take(k + 1).drop_last() =~= p.take(k));
        lemma_entry_pos_prefix(p, k + 1, i);
    } else {
        assert(p.take(k) =~= p);
    }
}

proof fn lemma_entry_pos_bounds(p: Seq<PlanEntry>, i: usize)
    ensures
        -1 <= entry_pos(p, i) < p.len(),
        entry_pos(p, i) >= 0 ==> p[entry_pos(p, i)].0 == i,
    decreases p.len(),
{
    if p.len() > 0 {
        lemma_entry_pos_bounds(p.drop_last(), i);
    }
}

fn unhealthy_entries(subnets: &Vec<(String, DecentralizedSubnet)>, healths: &Vec<(String, HealthStatus)>) -> (r: Vec<PlanEntry>)
    ensures
        r@ == unhealthy_plan(subnets@, healths@, subnets@.len() as int),
        entries_in(r@, subnets@.len() as int),
{
    let n = subnets.len();
    let mut u: Vec<PlanEntry> = Vec::new();
    let mut i: usize = 0;
    while i < n
        invariant
            i <= n,
            n == subnets@.len(),
            u@ == unhealthy_plan(subnets@, healths@, i as int),
            entries_in(u@, n as int),
        decreases n - i,
    {
        let un = unhealthy_of(healths, &subnets[i].1.nodes);
        if un.len() > 0 {
            u.push((i, true, false));
        }
        i = i + 1;
    }
    u
}

fn cordoned_entries(subnets: &Vec<(String, DecentralizedSubnet)>, cf: &Vec<CordonedFeature>) -> (r: Vec<PlanEntry>)
    ensures
        r@ == cordoned_plan(subnets@, cf@, subnets@.len() as int),
        entries_in(r@, subnets@.len() as int),
{
    let n = subnets.len();
    let mut c: Vec<PlanEntry> = Vec::new();
    let mut i: usize = 0;
    while i < n
        invariant
            i <= n,
            n == subnets@.len(),
            c@ == cordoned_plan(subnets@, cf@, i as int),
            entries_in(c@, n as int),
        decreases n - i,
    {
        let cn = cordoned_nodes_of(&subnets[i].1.nodes, cf);
        if cn.len() > 0 {
            c.push((i, false, true));
        }
        i = i + 1;
    }
    c
}

fn merge_entries(plan: &mut Vec<PlanEntry>, c: &Vec<PlanEntry>, Ghost(n): Ghost<int>)
    requires
        entries_in(old(plan)@, n),
        entries_in(c@, n),
    ensures
        final(plan)@ == merge_plan(old(plan)@, c@),
        entries_in(final(plan)@, n),
{
    let ghost p0 = plan@;
    let mut j: usize = 0;
    assert(c@.take(0) =~= Seq::<PlanEntry>::empty());
    while j < c.len()
        invariant
            j <= c@.len(),
            plan@ == merge_plan(p0, c@.take(j as int)),
            entries_in(plan@, n),
            entries_in(c@, n),
        decreases c.len() - j,
    {
        let ghost t = c@.take(j as int + 1);
        assert(t.drop_last() =~= c@.take(j as int));
        assert(t.last() == c@[j as int]);
        let e = c[j];
        let ghost before = plan@;
        match find_entry(plan, e.0) {
            Some(k) => {
                let old_e = plan[k];
                plan.set(k, (old_e.0, old_e.1, true));
                assert forall|m: int| 0 <= m < plan@.len() implies (#[trigger] plan@[m]).0 < n by {
                    assert(before[m].0 < n);
                }
            },
            None => {
                plan.push(e);
                assert forall|m: int| 0 <= m < plan@.len() implies (#[trigger] plan@[m]).0 < n by {
                    if m < before.len() {
                        assert(before[m].0 < n);
                    }
                }
            },
        }
        j = j + 1;
    }
    assert(c@.take(c@.len() as int) =~= c@);
}

fn add_violating_entries(plan: &mut Vec<PlanEntry>, subnets: &Vec<(String, DecentralizedSubnet)>)
    requires
        entries_in(old(plan)@, subnets@.len() as int),
        forall|i: int| 0 <= i < subnets@.len() ==> (#[trigger] subnets@[i]).1.nodes@.len() * 100000 <= usize::MAX,
    ensures
        final(plan)@ == add_violating(old(plan)@, subnets@, subnets@.len() as int),
        entries_in(final(plan)@, subnets@.len() as int),
{
    let n = subnets.len();
    let ghost p0 = plan@;
    let mut i: usize = 0;
    while i < n
        invariant
            i <= n,
            n == subnets@.len(),
            plan@ == add_violating(p0, subnets@, i as int),
            entries_in(plan@, n as int),
            forall|i: int| 0 <= i < subnets@.len() ==> (#[trigger] subnets@[i]).1.nodes@.len() * 100000 <= usize::MAX,
        decreases n - i,
    {
        let (penalty, _) = subnets[i].1.check_business_rules();
        if penalty > 0 {
            match find_entry(plan, i) {
                Some(_) => {},
                None => {
                    plan.push((i, false, false));
                },
            }
        }
        i = i + 1;
    }
}

fn keep_entries(plan: &Vec<PlanEntry>, subnets: &Vec<(String, DecentralizedSubnet)>, optimize: bool) -> (r: Vec<PlanEntry>)
    requires
        entries_in(plan@, subnets@.len() as int),
        forall|i: int| 0 <= i < subnets@.len() ==> (#[trigger] subnets@[i]).1.nodes@.len() * 100000 <= usize::MAX,
    ensures
        r@ == keep_plan(plan@, subnets@, optimize),
        entries_in(r@, subnets@.len() as int),
{
    let n = subnets.len();
    let mut kept: Vec<PlanEntry> = Vec::new();
    let mut k: usize = 0;
    assert(plan@.take(0) =~= Seq::<PlanEntry>::empty());
    while k < plan.len()
        invariant
            k <= plan@.len(),
            kept@ == keep_plan(plan@.take(k as int), subnets@, optimize),
            entries_in(kept@, n as int),
            entries_in(plan@, n as int),
            n == subnets@.len(),
            forall|i: int| 0 <= i < subnets@.len() ==> (#[trigger] subnets@[i]).1.nodes@.len() * 100000 <= usize::MAX,
        decreases plan.len() - k,
    {
        let ghost t = plan@.take(k as int + 1);
        assert(t.drop_last() =~= plan@.take(k as int));
        assert(t.last() == plan@[k as int]);
        let e = plan[k];
        let keep = if e.2 {
            true
        } else if optimize {
            let (penalty, _) = subnets[e.0].1.check_business_rules();
            penalty > 0
        } else {
            false
        };
        if keep {
            kept.push(e);
        }
        k = k + 1;
    }
    assert(plan@.take(plan@.len() as int) =~= plan@);
    kept
}

/// The subnets to fix, as plan entries (see [`fix_plan`]).
pub fn plan_fixes(
    subnets: &Vec<(String, DecentralizedSubnet)>,
    healths: &Vec<(String, HealthStatus)>,
    cf: &Vec<CordonedFeature>,
    remove_cordoned: bool,
    optimize: bool,
    heal: bool,
) -> (r: Vec<PlanEntry>)
    requires
        forall|i: int| 0 <= i < subnets@.len() ==> (#[trigger] subnets@[i]).1.nodes@.len() * 100000 <= usize::MAX,
    ensures
        r@ == fix_plan(subnets@, healths@, cf@, remove_cordoned, optimize, heal),
        entries_in(r@, subnets@.len() as int),
{
    let ghost n = subnets@.len() as int;
    let u = unhealthy_entries(subnets, healths);
    let mut plan = sort_plan_exec(subnets, &u);
    proof {
        lemma_sort_plan_entries(subnets@, u@, n);
    }
    if remove_cordoned {
        let c0 = cordoned_entries(subnets, cf);
        let c = sort_plan_exec(subnets, &c0);
        proof {
            lemma_sort_plan_entries(subnets@, c0@, n);
        }
        merge_entries(&mut plan, &c, Ghost(n));
    }
    if optimize {
        add_violating_entries(&mut plan, subnets);
    }
    let plan = if heal {
        plan
    } else {
        keep_entries(&plan, subnets, optimize)
    };
    let r = sort_plan_exec(subnets, &plan);
    proof {
        lemma_sort_plan_entries(subnets@, plan@, n);
    }
    r
}

proof fn lemma_sort_plan_entries(subnets: Seq<(String, DecentralizedSubnet)>, p: Seq<PlanEntry>, n: int)
    requires
        entries_in(p, n),
    ensures
        entries_in(sort_plan(subnets, p), n),
{
    lemma_sort_plan_len(subnets, p);
    assert forall|k: int| 0 <= k < sort_plan(subnets, p).len() implies (#[trigger] sort_plan(subnets, p)[k]).0 < n by {
        let j = choose|j: int| 0 <= j < p.len() && sort_plan(subnets, p)[k] == p[j];
        assert(p[j].0 < n);
    }
}

proof fn lemma_keep_plan_kept(p: Seq<PlanEntry>, subnets: Seq<(String, DecentralizedSubnet)>, optimize: bool)
    ensures
        forall|k: int|
            0 <= k < keep_plan(p, subnets, optimize).len() ==> {
                let e = #[trigger] keep_plan(p, subnets, optimize)[k];
                &&& p.contains(e)
                &&& e.2 || (optimize && is_violating(subnets, e.0 as int))
            },
    decreases p.len(),
{
    if p.len() > 0 {
        lemma_keep_plan_kept(p.drop_last(), subnets, optimize);
        let r = keep_plan(p.drop_last(), subnets, optimize);
        assert forall|k: int| 0 <= k < r.len() implies p.contains(#[trigger] r[k]) by {
            let j = choose|j: int| 0 <= j < p.drop_last().len() && p.drop_last()[j] == r[k];
            assert(p[j] == r[k]);
        }
        assert(p[p.len() - 1] == p.last());
    }
}

proof fn lemma_unhealthy_plan_not_cordoned(subnets: Seq<(String, DecentralizedSubnet)>, healths: Seq<(String, HealthStatus)>, n: int)
    ensures
        forall|k: int| 0 <= k < unhealthy_plan(subnets, healths, n).len() ==> !(#[trigger] unhealthy_plan(subnets, healths, n)[k]).2,
    decreases n,
{
    if n > 0 {
        lemma_unhealthy_plan_not_cordoned(subnets, healths, n - 1);
        let r = unhealthy_plan(subnets, healths, n - 1);
        assert forall|k: int| 0 <= k < unhealthy_plan(subnets, healths, n).len() implies !(#[trigger] unhealthy_plan(subnets, healths, n)[k]).2 by {
            if k < r.len() {
                assert(!r[k].2);
            }
        }
    }
}

proof fn lemma_add_violating_not_cordoned(p: Seq<PlanEntry>, subnets: Seq<(String, DecentralizedSubnet)>, n: int)
    requires
        forall|k: int| 0 <= k < p.len() ==> !(#[trigger] p[k]).2,
    ensures
        forall|k: int| 0 <= k < add_violating(p, subnets, n).len() ==> !(#[trigger] add_violating(p, subnets, n)[k]).2,
    decreases n,
{
    if n > 0 {
        lemma_add_violating_not_cordoned(p, subnets, n - 1);
        let q = add_violating(p, subnets, n - 1);
        assert forall|k: int| 0 <= k < add_violating(p, subnets, n).len() implies !(#[trigger] add_violating(p, subnets, n)[k]).2 by {
            if k < q.len() {
                assert(!q[k].2);
            }
        }
    }
}

proof fn lemma_sort_plan_not_cordoned(subnets: Seq<(String, DecentralizedSubnet)>, p: Seq<PlanEntry>)
    requires
        forall|k: int| 0 <= k < p.len() ==> !(#[trigger] p[k]).2,
    ensures
        forall|k: int| 0 <= k < sort_plan(subnets, p).len() ==> !(#[trigger] sort_plan(subnets, p)[k]).2,
{
    lemma_sort_plan_len(subnets, p);
    assert forall|k: int| 0 <= k < sort_plan(subnets, p).len() implies !(#[trigger] sort_plan(subnets, p)[k]).2 by {
        let j = choose|j: int| 0 <= j < p.len() && sort_plan(subnets, p)[k] == p[j];
        assert(!p[j].2);
    }
}

/// Without healing, only the subnets whose cordoned nodes are to be replaced (which happens only
/// where `remove_cordoned`) and, where `optimize`, those that break a business rule are planned;
/// so with none of the three flags nothing is planned.
pub proof fn lemma_plan_without_heal(
    subnets: Seq<(String, DecentralizedSubnet)>,
    healths: Seq<(String, HealthStatus)>,
    cf: Seq<CordonedFeature>,
    remove_cordoned: bool,
    optimize: bool,
)
    ensures
        forall|k: int|
            0 <= k < fix_plan(subnets, healths, cf, remove_cordoned, optimize, false).len() ==> {
                let e = #[trigger] fix_plan(subnets, healths, cf, remove_cordoned, optimize, false)[k];
                (remove_cordoned && e.2) || (optimize && is_violating(subnets, e.0 as int))
            },
        !remove_cordoned && !optimize ==> fix_plan(subnets, healths, cf, remove_cordoned, optimize, false).len() == 0,
{
    let n = subnets.len() as int;
    let p1 = sort_plan(subnets, unhealthy_plan(subnets, healths, n));
    let p2 = if remove_cordoned {
        merge_plan(p1, sort_plan(subnets, cordoned_plan(subnets, cf, n)))
    } else {
        p1
    };
    let p3 = if optimize {
        add_violating(p2, subnets, n)
    } else {
        p2
    };
    let p4 = keep_plan(p3, subnets, optimize);
    let plan = sort_plan(subnets, p4);
    assert(plan == fix_plan(subnets, healths, cf, remove_cordoned, optimize, false));
    if !remove_cordoned {
        lemma_unhealthy_plan_not_cordoned(subnets, healths, n);
        lemma_sort_plan_not_cordoned(subnets, unhealthy_plan(subnets, healths, n));
        if optimize {
            lemma_add_violating_not_cordoned(p2, subnets, n);
        }
    }
    lemma_keep_plan_kept(p3, subnets, optimize);
    lemma_sort_plan_len(subnets, p4);
    assert forall|k: int| 0 <= k < plan.len() implies ({
        let e = #[trigger] plan[k];
        (remove_cordoned && e.2) || (optimize && is_violating(subnets, e.0 as int))
    }) by {
        let j = choose|j: int| 0 <= j < p4.len() && plan[k] == p4[j];
        let e = p4[j];
        assert(p3.contains(e));
        if !remove_cordoned {
            let i = choose|i: int| 0 <= i < p3.len() && p3[i] == e;
            assert(!p3[i].2);
        }
    }
    if !remove_cordoned && !optimize {
        if plan.len() > 0 {
            let e = plan[0];
            assert((remove_cordoned && e.2) || (optimize && is_violating(subnets, e.0 as int)));
        }
    }
}

/// The parts of a subnet to heal that its healing reads: its nodes, its unhealthy nodes and its
/// cordoned nodes with why. Its name is not read there (it only sets the subnet's priority, see
/// [`heal_priority`]), nor its id (which comes with the candidate changes).
pub open spec fn healing_inputs(h: NetworkHealSubnet) -> (Seq<Node>, Seq<Node>, Seq<(Node, Seq<char>)>) {
    (h.decentralized_subnet.nodes@, h.unhealthy_nodes@, pairs_view(h.cordoned_nodes@))
}

/// The subnet to heal that plan entry `e` stands for: its name, the subnet with its principal
/// and nodes (nothing added or removed, no comment, an empty run log), its unhealthy nodes where the entry says so, and its
/// cordoned nodes where the entry says so.
pub open spec fn heals_entry(
    h: NetworkHealSubnet,
    subnets: Seq<(String, DecentralizedSubnet)>,
    healths: Seq<(String, HealthStatus)>,
    cf: Seq<CordonedFeature>,
    e: PlanEntry,
) -> bool {
    let s = subnets[e.0 as int];
    &&& h.name@ == s.0@
    &&& h.decentralized_subnet.id@ == s.1.id@
    &&& h.decentralized_subnet.nodes@ == s.1.nodes@
    &&& h.decentralized_subnet.added_nodes@.len() == 0
    &&& h.decentralized_subnet.removed_nodes@.len() == 0
    &&& h.decentralized_subnet.comment.is_none()
    &&& h.decentralized_subnet.run_log@.len() == 0
    &&& h.unhealthy_nodes@ == if e.1 { unhealthy_nodes(healths, s.1.nodes@) } else { Seq::empty() }
    &&& pairs_view(h.cordoned_nodes@) == if e.2 { cordoned_in(s.1.nodes@, cf) } else { Seq::empty() }
}

/// The subnet to heal for plan entry `e` (see [`heals_entry`]).
pub fn heal_subnet_for(
    subnets: &Vec<(String, DecentralizedSubnet)>,
    healths: &Vec<(String, HealthStatus)>,
    cf: &Vec<CordonedFeature>,
    e: PlanEntry,
) -> (r: NetworkHealSubnet)
    requires
        e.0 < subnets@.len(),
    ensures
        heals_entry(r, subnets@, healths@, cf@, e),
{
    let s = &subnets[e.0];
    let unhealthy_nodes = if e.1 {
        unhealthy_of(healths, &s.1.nodes)
    } else {
        Vec::new()
    };
    let cordoned_nodes = if e.2 {
        cordoned_nodes_of(&s.1.nodes, cf)
    } else {
        let v: Vec<(Node, String)> = Vec::new();
        assert(pairs_view(v@) =~= Seq::<(Node, Seq<char>)>::empty());
        v
    };
    NetworkHealSubnet {
        name: s.0.clone(),
        decentralized_subnet: DecentralizedSubnet::new_with_subnet_id_and_nodes(s.1.id.clone(), copy_nodes(&s.1.nodes)),
        unhealthy_nodes,
        cordoned_nodes,
    }
}

/// Whether a node with the principal of `x` and the same reason is among `r`.
pub open spec fn pair_in(r: Seq<(Node, Seq<char>)>, x: (Node, Seq<char>)) -> bool {
    exists|k: int| 0 <= k < r.len() && (#[trigger] r[k]).0.principal@ == x.0.principal@ && r[k].1 == x.1
}

/// The pairs without repeats, each kept at its first occurrence.
pub open spec fn dedup_pairs(s: Seq<(Node, Seq<char>)>) -> Seq<(Node, Seq<char>)>
    decreases s.len(),
{
    if s.len() == 0 {
        Seq::empty()
    } else {
        let r = dedup_pairs(s.drop_last());
        if pair_in(r, s.last()) {
            r
        } else {
            r.push(s.last())
        }
    }
}

/// The nodes to replace in a subnet of `size` nodes: the unhealthy nodes (as "unhealthy") then
/// the cordoned nodes, without repeats, at most a sixth of the subnet (more would stall it).
pub open spec fn nodes_to_replace(size: int, unhealthy: Seq<Node>, cordoned: Seq<(Node, Seq<char>)>) -> Seq<(Node, Seq<char>)> {
    let d = dedup_pairs(unhealthy.map_values(|n: Node| (n, "unhealthy"@)) + cordoned);
    let m = size / 6;
    if d.len() > m {
        d.take(m)
    } else {
        d
    }
}

fn has_pair(r: &Vec<(Node, String)>, n: &Node, why: &str) -> (b: bool)
    ensures
        b == pair_in(pairs_view(r@), (*n, why@)),
{
    let mut k: usize = 0;
    while k < r.len()
        invariant
            k <= r@.len(),
            forall|j: int| 0 <= j < k ==> !((#[trigger] pairs_view(r@)[j]).0.principal@ == n.principal@ && pairs_view(r@)[j].1 == why@),
        decreases r.len() - k,
    {
        if str_eq(r[k].0.principal.as_str(), n.principal.as_str()) && str_eq(r[k].1.as_str(), why) {
            assert(pairs_view(r@)[k as int].0.principal@ == n.principal@ && pairs_view(r@)[k as int].1 == why@);
            return true;
        }
        k = k + 1;
    }
    false
}

/// The nodes to replace in subnet `h` (see [`nodes_to_replace`]).
pub fn replacement_nodes(h: &NetworkHealSubnet) -> (r: Vec<(Node, String)>)
    ensures
        pairs_view(r@) == nodes_to_replace(h.decentralized_subnet.nodes@.len() as int, h.unhealthy_nodes@, pairs_view(h.cordoned_nodes@)),
        r@.len() <= h.decentralized_subnet.nodes@.len() / 6,
{
    let ghost all = h.unhealthy_nodes@.map_values(|n: Node| (n, "unhealthy"@)) + pairs_view(h.cordoned_nodes@);
    let mut r: Vec<(Node, String)> = Vec::new();
    let why = "unhealthy";
    proof {
        reveal_strlit("unhealthy");
    }
    assert(pairs_view(r@) =~= dedup_pairs(all.take(0)));
    let nu = h.unhealthy_nodes.len();
    let mut i: usize = 0;
    while i < nu
        invariant
            i <= nu,
            nu == h.unhealthy_nodes@.len(),
            why@ == "unhealthy"@,
            all == h.unhealthy_nodes@.map_values(|n: Node| (n, "unhealthy"@)) + pairs_view(h.cordoned_nodes@),
            pairs_view(r@) == dedup_pairs(all.take(i as int)),
        decreases nu - i,
    {
        let ghost t = all.take(i as int + 1);
        assert(t.drop_last() =~= all.take(i as int));
        assert(t.last() == (h.unhealthy_nodes@[i as int], "unhealthy"@));
        let ghost before = r@;
        if !has_pair(&r, &h.unhealthy_nodes[i], why) {
            r.push((h.unhealthy_nodes[i].copied(), why.to_string()));
            assert(pairs_view(r@) =~= pairs_view(before).push((h.unhealthy_nodes@[i as int], "unhealthy"@)));
        }
        i = i + 1;
    }
    let nc = h.cordoned_nodes.len();
    let mut j: usize = 0;
    while j < nc
        invariant
            j <= nc,
            nc == h.cordoned_nodes@.len(),
            nu == h.unhealthy_nodes@.len(),
            all == h.unhealthy_nodes@.map_values(|n: Node| (n, "unhealthy"@)) + pairs_view(h.cordoned_nodes@),
            pairs_view(r@) == dedup_pairs(all.take(nu + j)),
        decreases nc - j,
    {
        let ghost t = all.take(nu + j + 1);
        assert(t.drop_last() =~= all.take(nu + j));
        assert(t.last() == pairs_view(h.cordoned_nodes@)[j as int]);
        let ghost before = r@;
        if !has_pair(&r, &h.cordoned_nodes[j].0, h.cordoned_nodes[j].1.as_str()) {
            r.push((h.cordoned_nodes[j].0.copied(), h.cordoned_nodes[j].1.clone()));
            assert(pairs_view(r@) =~= pairs_view(before).push(pairs_view(h.cordoned_nodes@)[j as int]));
        }
        j = j + 1;
    }
    assert(all.take(nu + nc) =~= all);
    let m = h.decentralized_subnet.nodes.len() / 6;
    if r.len() > m {
        r.truncate(m);
        assert(pairs_view(r@) =~= dedup_pairs(all).take(m as int));
    }
    r
}

/// Whether a subnet of `size` nodes is small enough for its healing to be computed.
pub open spec fn healable_size(size: int) -> bool {
    &&& (2 * size + 2) * 100000 <= usize::MAX
    &&& 2 * size + 2 <= MAX_COEFFICIENT
}

/// The reason given to every candidate change.
pub open spec fn heal_reason() -> Seq<char> {
    "Replacing nodes to optimize network topology and heal unhealthy nodes"@
}

/// A candidate change for a subnet with nodes `nodes`: it starts from those nodes, its score
/// after can be compared, and it has the healing reason.
pub open spec fn valid_candidate(c: SubnetChangeResponse, nodes: Seq<Node>) -> bool {
    &&& c.nodes_old@ == nodes
    &&& c.score_after.wf()
    &&& c.score_after.bounded()
    &&& c.motivation matches Some(m) && m@ == heal_reason()
}

/// Candidate changes for a subnet with nodes `nodes`: at most one per number of extra nodes
/// from 0 to `limit`.
pub open spec fn valid_candidates(cs: Seq<SubnetChangeResponse>, nodes: Seq<Node>, limit: int) -> bool {
    &&& cs.len() <= limit + 1
    &&& forall|i: int| 0 <= i < cs.len() ==> #[trigger] valid_candidate(cs[i], nodes)
}

/// The nodes of the replacements.
pub open spec fn replaced_nodes(repl: Seq<(Node, Seq<char>)>) -> Seq<Node> {
    repl.map_values(|p: (Node, Seq<char>)| p.0)
}

/// Whether `req` asks to change a subnet like `sub` (the same principal, nodes, added and
/// removed nodes, comment and run log) with the available nodes `available`, and includes,
/// removes and keeps no node.
pub open spec fn heal_request(req: SubnetChangeRequest, sub: DecentralizedSubnet, available: Seq<Node>) -> bool {
    &&& req.subnet.id@ == sub.id@
    &&& req.subnet.nodes@ == sub.nodes@
    &&& req.subnet.added_nodes@ == sub.added_nodes@
    &&& req.subnet.removed_nodes@ == sub.removed_nodes@
    &&& opt_view(req.subnet.comment) == opt_view(sub.comment)
    &&& texts(req.subnet.run_log@) == texts(sub.run_log@)
    &&& req.available_nodes@ == available
    &&& req.include_nodes@.len() == 0
    &&& req.nodes_to_remove@.len() == 0
    &&& req.nodes_to_keep@.len() == 0
}

/// What the attempt to replace the nodes `repl` and `k` more nodes of subnet `sub` returns (see
/// [`optimize_outcome`]).
pub open spec fn heal_attempt(
    sub: DecentralizedSubnet,
    available: Seq<Node>,
    k: nat,
    repl: Seq<Node>,
    healths: Seq<(String, HealthStatus)>,
    cf: Seq<CordonedFeature>,
    all: Seq<Node>,
    out: Result<SubnetChange, NetworkError>,
) -> bool {
    exists|req: SubnetChangeRequest|
        #[trigger] heal_request(req, sub, available) && optimize_outcome(req, k, repl, healths, cf, all, out)
}

/// Whether `rs` summarizes, in order, the changes of the attempts `outs` that succeeded (see
/// [`response_of`]), each with the healing reason.
pub open spec fn summaries_of(
    rs: Seq<SubnetChangeResponse>,
    outs: Seq<Result<SubnetChange, NetworkError>>,
    healths: Seq<(String, HealthStatus)>,
) -> bool
    decreases outs.len(),
{
    if outs.len() == 0 {
        rs.len() == 0
    } else {
        match outs.last() {
            Ok(c) => {
                &&& rs.len() > 0
                &&& summaries_of(rs.drop_last(), outs.drop_last(), healths)
                &&& response_of(rs.last(), c, healths)
                &&& rs.last().motivation matches Some(m) && m@ == heal_reason()
            },
            Err(_) => summaries_of(rs, outs.drop_last(), healths),
        }
    }
}

/// Whether `cs` are the candidate changes for subnet `sub` with the replacements `repl` and the
/// available nodes `available`: for each number of extra nodes from 0 up to a sixth of the
/// subnet less the replacements, in order, the summary of the attempt with that many extra
/// nodes, when it succeeds.
pub open spec fn healing_candidates(
    sub: DecentralizedSubnet,
    repl: Seq<Node>,
    available: Seq<Node>,
    healths: Seq<(String, HealthStatus)>,
    cf: Seq<CordonedFeature>,
    all: Seq<Node>,
    cs: Seq<SubnetChangeResponse>,
) -> bool {
    let limit = sub.nodes@.len() / 6 - repl.len();
    exists|outs: Seq<Result<SubnetChange, NetworkError>>|
        #[trigger] summaries_of(cs, outs, healths) && outs.len() == limit + 1 && forall|k: int|
            0 <= k <= limit ==> heal_attempt(sub, available, k as nat, repl, healths, cf, all, #[trigger] outs[k])
}

/// The nodes of the pairs.
fn pair_nodes(v: &Vec<(Node, String)>) -> (r: Vec<Node>)
    ensures
        r@ == v@.map_values(|p: (Node, String)| p.0),
{
    let mut r: Vec<Node> = Vec::new();
    let mut i: usize = 0;
    while i < v.len()
        invariant
            i <= v@.len(),
            r@ == v@.take(i as int).map_values(|p: (Node, String)| p.0),
        decreases v.len() - i,
    {
        r.push(v[i].0.copied());
        assert(r@ =~= v@.take(i as int + 1).map_values(|p: (Node, String)| p.0));
        i = i + 1;
    }
    assert(v@.take(v@.len() as int) =~= v@);
    r
}

/// The candidate changes for subnet `h`: replacing the nodes `repl` and, for each number of
/// extra nodes from 0 up to a sixth of the subnet less the nodes replaced, that many more
/// nodes, with the available nodes `available`; the attempts that fail are left out.
#[verifier::rlimit(40)]
pub fn candidate_changes(
    h: &NetworkHealSubnet,
    repl: &Vec<(Node, String)>,
    available: &Vec<Node>,
    healths: &Vec<(String, HealthStatus)>,
    cf: &Vec<CordonedFeature>,
    all_nodes: &Vec<Node>,
) -> (r: Vec<SubnetChangeResponse>)
    requires
        healable_size(h.decentralized_subnet.nodes@.len() as int),
        h.decentralized_subnet.added_nodes@.len() == 0,
        repl@.len() <= h.decentralized_subnet.nodes@.len() / 6,
    ensures
        valid_candidates(r@, h.decentralized_subnet.nodes@, h.decentralized_subnet.nodes@.len() / 6 - repl@.len()),
        healing_candidates(h.decentralized_subnet, replaced_nodes(pairs_view(repl@)), available@, healths@, cf@, all_nodes@, r@),
{
    let size = h.decentralized_subnet.nodes.len();
    let m = size / 6;
    let limit = m - repl.len();
    let repl_nodes = pair_nodes(repl);
    assert(repl_nodes@ =~= replaced_nodes(pairs_view(repl@)));
    let mut out: Vec<SubnetChangeResponse> = Vec::new();
    let ghost mut outs: Seq<Result<SubnetChange, NetworkError>> = Seq::empty();
    let mut k: usize = 0;
    while k <= limit
        invariant
            outs.len() == k,
            summaries_of(out@, outs, healths@),
            forall|j: int|
                0 <= j < k ==> heal_attempt(
                    h.decentralized_subnet,
                    available@,
                    j as nat,
                    repl_nodes@,
                    healths@,
                    cf@,
                    all_nodes@,
                    #[trigger] outs[j],
                ),
            repl_nodes@ == replaced_nodes(pairs_view(repl@)),
            k <= limit + 1,
            limit + repl@.len() == m,
            m == size / 6,
            size == h.decentralized_subnet.nodes@.len(),
            repl_nodes@.len() == repl@.len(),
            healable_size(size as int),
            h.decentralized_subnet.added_nodes@.len() == 0,
            out@.len() <= k,
            forall|i: int| 0 <= i < out@.len() ==> #[trigger] valid_candidate(out@[i], h.decentralized_subnet.nodes@),
        decreases limit + 1 - k,
    {
        let req = SubnetChangeRequest {
            subnet: h.decentralized_subnet.copied(),
            available_nodes: copy_nodes(available),
            include_nodes: Vec::new(),
            nodes_to_remove: Vec::new(),
            nodes_to_keep: Vec::new(),
        };
        let ghost n = size + k + repl@.len() + k + 1;
        assert(n <= 2 * size + 2);
        let ghost req_view = req;
        let attempt = req.optimize(k, &repl_nodes, healths, cf, all_nodes);
        let ghost before_outs = outs;
        proof {
            assert(heal_request(req_view, h.decentralized_subnet, available@));
            assert(heal_attempt(h.decentralized_subnet, available@, k as nat, repl_nodes@, healths@, cf@, all_nodes@, attempt));
            outs = outs.push(attempt);
            assert(outs.drop_last() =~= before_outs);
            assert forall|j: int| 0 <= j < k + 1 implies heal_attempt(
                h.decentralized_subnet,
                available@,
                j as nat,
                repl_nodes@,
                healths@,
                cf@,
                all_nodes@,
                #[trigger] outs[j],
            ) by {
                if j < k {
                    assert(outs[j] == before_outs[j]);
                }
            }
        }
        match attempt {
            Ok(c) => {
                let reason = "Replacing nodes to optimize network topology and heal unhealthy nodes";
                proof {
                    reveal_strlit("Replacing nodes to optimize network topology and heal unhealthy nodes");
                }
                let resp = SubnetChangeResponse::new(&c, healths, Some(reason.to_string()));
                assert(response_of(resp, c, healths@));
                let ghost before = out@;
                out.push(resp);
                assert(out@.drop_last() =~= before);
                assert forall|i: int| 0 <= i < out@.len() implies #[trigger] valid_candidate(out@[i], h.decentralized_subnet.nodes@) by {
                    if i < before.len() {
                        assert(out@[i] == before[i]);
                    }
                }
            },
            Err(_) => {},
        }
        k = k + 1;
    }
    assert(outs.len() == limit + 1);
    out
}

/// How one more candidate change compares with the one before: the number of extra nodes it
/// replaces, the criterion that tells their scores apart, and the penalties before and after.
#[derive(Debug, Clone, Copy, PartialEq, Eq)]
pub struct OptimizationStep {
    pub nodes: usize,
    pub difference: ScoreDifference,
    pub penalty_before: usize,
    pub penalty_after: usize,
}

/// The change proposed to heal a subnet, why each node is replaced, how each further candidate
/// compares with the one before, the score after each candidate, and how many nodes are replaced
/// beyond those that had to be.
#[derive(Debug, Clone)]
pub struct SubnetHealing {
    pub change: SubnetChangeResponse,
    pub replacement_reasons: Vec<String>,
    pub optimizations: Vec<OptimizationStep>,
    pub candidate_scores: Vec<NakamotoScore>,
    pub additional_nodes: usize,
}

/// The name of a health status, in lower case.
pub open spec fn health_word(h: HealthStatus) -> Seq<char> {
    match h {
        HealthStatus::Healthy => "healthy"@,
        HealthStatus::Degraded => "degraded"@,
        HealthStatus::Dead => "dead"@,
        HealthStatus::Unknown => "unknown"@,
    }
}

/// The health recorded for principal `p`: the first entry for it, if any.
pub open spec fn recorded_health(healths: Seq<(String, HealthStatus)>, p: Seq<char>) -> Option<HealthStatus>
    decreases healths.len(),
{
    if healths.len() == 0 {
        None
    } else if healths[0].0@ == p {
        Some(healths[0].1)
    } else {
        recorded_health(healths.drop_first(), p)
    }
}

/// Why node `x.0` is replaced: it is unhealthy (with its recorded health, "unhealthy" when none
/// is recorded), cordoned (with why), or replaced to reduce the topology penalty (`improving`)
/// or to optimize the topology.
pub open spec fn reason_line(
    unhealthy: Seq<Node>,
    cordoned: Seq<(Node, Seq<char>)>,
    x: (Node, Seq<char>),
    healths: Seq<(String, HealthStatus)>,
    improving: bool,
) -> Seq<char> {
    let p = x.0.principal@;
    let short = before_dash(p);
    if principals(unhealthy).contains(p) {
        "replacing "@ + (match recorded_health(healths, p) {
            Some(s) => health_word(s),
            None => "unhealthy"@,
        }) + " node "@ + short
    } else if cordoned.map_values(|c: (Node, Seq<char>)| c.0.principal@).contains(p) {
        "replacing cordoned node "@ + short + " ("@ + x.1 + ")"@
    } else if improving {
        "replacing node "@ + short + " to reduce subnet topology penalty"@
    } else {
        "replacing node "@ + short + " to optimize network topology"@
    }
}

/// The position of the chosen candidate (see [`chosen_change`]), the penalty before the first
/// candidate serving as the original penalty.
pub open spec fn chosen_index(cs: Seq<SubnetChangeResponse>) -> int {
    chosen_change(penalties_after(cs), scores_after(cs), cs[0].penalties_before_change as int) as int
}

/// Whether some candidate lowers the topology penalty.
pub open spec fn improving(cs: Seq<SubnetChangeResponse>) -> bool {
    min_penalty(penalties_after(cs)) < cs[0].penalties_before_change
}

/// How each candidate after the first compares with the one before.
pub open spec fn optimization_steps(cs: Seq<SubnetChangeResponse>) -> Seq<OptimizationStep> {
    Seq::new(
        (cs.len() - 1) as nat,
        |k: int|
            OptimizationStep {
                nodes: (k + 1) as usize,
                difference: score_difference(cs[k + 1].score_after, cs[k].score_after).1,
                penalty_before: cs[k].penalties_after_change,
                penalty_after: cs[k + 1].penalties_after_change,
            },
    )
}

/// The healing of a subnet with nodes to replace `repl` among the candidates `cs`: none without
/// candidates or when the chosen one removes no node; otherwise the chosen candidate, why each
/// node is replaced, how the candidates compare, and the number of nodes it removes beyond
/// `repl` (none when it removes fewer).
pub open spec fn is_healing(
    r: Option<SubnetHealing>,
    h: (Seq<Node>, Seq<Node>, Seq<(Node, Seq<char>)>),
    repl: Seq<(Node, Seq<char>)>,
    cs: Seq<SubnetChangeResponse>,
    healths: Seq<(String, HealthStatus)>,
) -> bool {
    match r {
        None => cs.len() == 0 || cs[chosen_index(cs)].node_ids_removed@.len() == 0,
        Some(x) => {
            &&& cs.len() > 0
            &&& 0 <= chosen_index(cs) < cs.len()
            &&& x.change == cs[chosen_index(cs)]
            &&& x.change.node_ids_removed@.len() > 0
            &&& texts(x.replacement_reasons@) == repl.map_values(
                |y: (Node, Seq<char>)| reason_line(h.1, h.2, y, healths, improving(cs)),
            )
            &&& x.optimizations@ == optimization_steps(cs)
            &&& x.candidate_scores@.len() == cs.len()
            &&& forall|k: int| 0 <= k < cs.len() ==> same_view(#[trigger] x.candidate_scores@[k], cs[k].score_after)
            &&& x.additional_nodes == if x.change.node_ids_removed@.len() >= repl.len() {
                x.change.node_ids_removed@.len() - repl.len()
            } else {
                0
            }
        },
    }
}

fn health_entry(healths: &Vec<(String, HealthStatus)>, p: &str) -> (r: Option<HealthStatus>)
    ensures
        r == recorded_health(healths@, p@),
{
    let mut i: usize = 0;
    assert(healths@.skip(0) =~= healths@);
    while i < healths.len()
        invariant
            i <= healths@.len(),
            recorded_health(healths@, p@) == recorded_health(healths@.skip(i as int), p@),
        decreases healths.len() - i,
    {
        assert(healths@.skip(i as int).drop_first() =~= healths@.skip(i as int + 1));
        assert(healths@.skip(i as int)[0] == healths@[i as int]);
        if str_eq(healths[i].0.as_str(), p) {
            return Some(healths[i].1);
        }
        i = i + 1;
    }
    None
}

fn health_name(h: HealthStatus) -> (r: &'static str)
    ensures
        r@ == health_word(h),
{
    proof {
        reveal_strlit("healthy");
        reveal_strlit("degraded");
        reveal_strlit("dead");
        reveal_strlit("unknown");
    }
    match h {
        HealthStatus::Healthy => "healthy",
        HealthStatus::Degraded => "degraded",
        HealthStatus::Dead => "dead",
        HealthStatus::Unknown => "unknown",
    }
}

fn cordoned_has(cordoned: &Vec<(Node, String)>, p: &str) -> (r: bool)
    ensures
        r == pairs_view(cordoned@).map_values(|c: (Node, Seq<char>)| c.0.principal@).contains(p@),
{
    let ghost ps = pairs_view(cordoned@).map_values(|c: (Node, Seq<char>)| c.0.principal@);
    let mut k: usize = 0;
    while k < cordoned.len()
        invariant
            k <= cordoned@.len(),
            ps == pairs_view(cordoned@).map_values(|c: (Node, Seq<char>)| c.0.principal@),
            forall|j: int| 0 <= j < k ==> ps[j] != p@,
        decreases cordoned.len() - k,
    {
        if str_eq(cordoned[k].0.principal.as_str(), p) {
            assert(ps[k as int] == p@);
            return true;
        }
        k = k + 1;
    }
    assert(forall|j: int| 0 <= j < ps.len() ==> ps[j] != p@);
    false
}

fn reason_for(h: &NetworkHealSubnet, x: &(Node, String), healths: &Vec<(String, HealthStatus)>, improving: bool) -> (r: String)
    ensures
        r@ == reason_line(h.unhealthy_nodes@, pairs_view(h.cordoned_nodes@), (x.0, x.1@), healths@, improving),
{
    let p = x.0.principal.as_str();
    let short = before_dash_pub(p);
    let mut s = String::new();
    proof {
        reveal_strlit("replacing ");
        reveal_strlit("unhealthy");
        reveal_strlit(" node ");
        reveal_strlit("replacing cordoned node ");
        reveal_strlit(" (");
        reveal_strlit(")");
        reveal_strlit("replacing node ");
        reveal_strlit(" to reduce subnet topology penalty");
        reveal_strlit(" to optimize network topology");
    }
    if has_principal_pub(&h.unhealthy_nodes, p) {
        push_str(&mut s, "replacing ");
        match health_entry(healths, p) {
            Some(st) => push_str(&mut s, health_name(st)),
            None => push_str(&mut s, "unhealthy"),
        }
        push_str(&mut s, " node ");
        push_str(&mut s, short.as_str());
    } else if cordoned_has(&h.cordoned_nodes, p) {
        push_str(&mut s, "replacing cordoned node ");
        push_str(&mut s, short.as_str());
        push_str(&mut s, " (");
        push_str(&mut s, x.1.as_str());
        push_str(&mut s, ")");
    } else if improving {
        push_str(&mut s, "replacing node ");
        push_str(&mut s, short.as_str());
        push_str(&mut s, " to reduce subnet topology penalty");
    } else {
        push_str(&mut s, "replacing node ");
        push_str(&mut s, short.as_str());
        push_str(&mut s, " to optimize network topology");
    }
    s
}

/// The healing of subnet `h` with the nodes to replace `repl` among the candidate changes
/// `changes` (see [`is_healing`]).
pub fn pick_healing(
    h: &NetworkHealSubnet,
    repl: &Vec<(Node, String)>,
    changes: Vec<SubnetChangeResponse>,
    healths: &Vec<(String, HealthStatus)>,
) -> (r: Option<SubnetHealing>)
    requires
        forall|i: int| 0 <= i < changes@.len() ==> (#[trigger] changes@[i]).score_after.wf() && changes@[i].score_after.bounded(),
    ensures
        is_healing(r, healing_inputs(*h), pairs_view(repl@), changes@, healths@),
{
    let mut changes = changes;
    let ghost cs = changes@;
    if changes.len() == 0 {
        return None;
    }
    let original = changes[0].penalties_before_change;
    let idx = choose_change(&changes, original);
    if changes[idx].node_ids_removed.len() == 0 {
        return None;
    }
    let mut m = changes[0].penalties_after_change;
    let mut i: usize = 1;
    assert(penalties_after(cs).take(1).len() == 1);
    while i < changes.len()
        invariant
            1 <= i <= changes@.len(),
            changes@ == cs,
            m as int == min_penalty(penalties_after(cs).take(i as int)),
        decreases changes.len() - i,
    {
        let ghost t = penalties_after(cs).take(i as int + 1);
        assert(t.drop_last() =~= penalties_after(cs).take(i as int));
        if changes[i].penalties_after_change < m {
            m = changes[i].penalties_after_change;
        }
        i = i + 1;
    }
    assert(penalties_after(cs).take(changes@.len() as int) =~= penalties_after(cs));
    let better = m < original;
    let mut steps: Vec<OptimizationStep> = Vec::new();
    let mut k: usize = 1;
    while k < changes.len()
        invariant
            1 <= k <= changes@.len(),
            changes@ == cs,
            forall|i: int| 0 <= i < cs.len() ==> (#[trigger] cs[i]).score_after.wf() && cs[i].score_after.bounded(),
            steps@ == optimization_steps(cs).take(k - 1),
        decreases changes.len() - k,
    {
        assert(cs[k as int].score_after.wf() && cs[k - 1].score_after.wf());
        let d = changes[k].score_after.difference_from(&changes[k - 1].score_after);
        steps.push(
            OptimizationStep {
                nodes: k,
                difference: d,
                penalty_before: changes[k - 1].penalties_after_change,
                penalty_after: changes[k].penalties_after_change,
            },
        );
        assert(steps@ =~= optimization_steps(cs).take(k as int));
        k = k + 1;
    }
    assert(optimization_steps(cs).take(cs.len() - 1) =~= optimization_steps(cs));
    let mut reasons: Vec<String> = Vec::new();
    let mut j: usize = 0;
    while j < repl.len()
        invariant
            j <= repl@.len(),
            texts(reasons@) == pairs_view(repl@).take(j as int).map_values(
                |y: (Node, Seq<char>)| reason_line(h.unhealthy_nodes@, pairs_view(h.cordoned_nodes@), y, healths@, better),
            ),
        decreases repl.len() - j,
    {
        let line = reason_for(h, &repl[j], healths, better);
        let ghost before = reasons@;
        reasons.push(line);
        assert(pairs_view(repl@)[j as int] == (repl@[j as int].0, repl@[j as int].1@));
        assert(texts(reasons@) =~= texts(before).push(line@));
        assert(pairs_view(repl@).take(j as int + 1) =~= pairs_view(repl@).take(j as int).push(pairs_view(repl@)[j as int]));
        assert(texts(reasons@) =~= pairs_view(repl@).take(j as int + 1).map_values(
            |y: (Node, Seq<char>)| reason_line(h.unhealthy_nodes@, pairs_view(h.cordoned_nodes@), y, healths@, better),
        ));
        j = j + 1;
    }
    assert(pairs_view(repl@).take(repl@.len() as int) =~= pairs_view(repl@));
    let mut candidate_scores: Vec<NakamotoScore> = Vec::new();
    let mut c: usize = 0;
    while c < changes.len()
        invariant
            c <= changes@.len(),
            changes@ == cs,
            forall|i: int| 0 <= i < cs.len() ==> (#[trigger] cs[i]).score_after.wf() && cs[i].score_after.bounded(),
            candidate_scores@.len() == c,
            forall|k: int| 0 <= k < c ==> same_view(#[trigger] candidate_scores@[k], cs[k].score_after),
        decreases changes.len() - c,
    {
        let sc = changes[c].score_after.copied();
        proof {
            assert(cs[c as int].score_after.wf());
            crate::compare::lemma_same_view_of_copy(sc, cs[c as int].score_after);
        }
        let ghost before = candidate_scores@;
        candidate_scores.push(sc);
        assert forall|k: int| 0 <= k < c + 1 implies same_view(#[trigger] candidate_scores@[k], cs[k].score_after) by {
            if k < c {
                assert(candidate_scores@[k] == before[k]);
            }
        }
        c = c + 1;
    }
    let change = changes.remove(idx);
    let removed = change.node_ids_removed.len();
    let additional_nodes = if removed >= repl.len() {
        removed - repl.len()
    } else {
        0
    };
    Some(SubnetHealing { change, replacement_reasons: reasons, optimizations: steps, candidate_scores, additional_nodes })
}

/// The line for one more candidate change, with `desc` describing how its score compares with
/// the one before; the penalties are shown where the penalty after is above zero or changed.
pub open spec fn step_line(st: OptimizationStep, desc: Seq<char>) -> Seq<char> {
    "- "@ + dec(st.nodes as nat) + " additional node"@ + (if st.nodes > 1 { "s"@ } else { Seq::empty() })
        + " would result in: "@ + desc + (if st.penalty_after > 0 || st.penalty_before != st.penalty_after {
        " and subnet topology penalty before "@ + dec(st.penalty_before as nat) + " => "@ + dec(st.penalty_after as nat)
            + " after the change"@
    } else {
        Seq::empty()
    })
}

/// The text on how many more nodes to replace, with the lines of the candidates.
pub open spec fn additional_text(lines: Seq<char>, extra: int) -> Seq<char> {
    if extra == 0 {
        "\n\nCalculated potential impact on subnet decentralization if replacing:\n\n"@ + lines + "\n\nBased on the calculated potential impact, not replacing additional nodes to improve optimization.\n"@
    } else {
        "\n\nCalculated potential impact on subnet decentralization if replacing:\n\n"@ + lines + "\n\nBased on the calculated potential impact, replacing "@ + dec(extra as nat)
            + " additional nodes to improve optimization\n\nNote: the heuristic for node replacement relies not only on the Nakamoto coefficient but also on other factors that iteratively optimize network topology.\nDue to this, Nakamoto coefficients may not directly increase in every node replacement proposal.\nCode for comparing decentralization of two candidate subnet topologies is at:\nhttps://github.com/dfinity/dre/blob/79066127f58c852eaf4adda11610e815a426878c/rs/decentralization/src/nakamoto/mod.rs#L342\n"@
    }
}

/// The note that closes the motivation.
pub open spec fn closing_note() -> Seq<char> {
    "\nNote: the information below is provided for your convenience. Please independently verify the decentralization changes rather than relying solely on this summary.\nHere is [an explaination of how decentralization is currently calculated](https://dfinity.github.io/dre/decentralization.html), \nand there are also [instructions for performing what-if analysis](https://dfinity.github.io/dre/subnet-decentralization-whatif.html) if you are wondering if another node would have improved decentralization more.\n\n"@
}

/// The motivation of a healing: why each node is replaced, one per line, then how the candidates
/// compare (`descs` describing each comparison) and how many more nodes are replaced, then the
/// closing note.
pub open spec fn heal_motivation(reasons: Seq<Seq<char>>, steps: Seq<OptimizationStep>, descs: Seq<Seq<char>>, extra: int) -> Seq<char> {
    let bullets = join_sep(reasons.map_values(|l: Seq<char>| " - "@ + l), "\n"@);
    let lines = join_sep(Seq::new(steps.len(), |k: int| step_line(steps[k], descs[k])), "\n"@);
    "\n"@ + bullets + additional_text(lines, extra) + closing_note()
}

fn step_text(st: &OptimizationStep, desc: &str) -> (r: String)
    ensures
        r@ == step_line(*st, desc@),
{
    proof {
        reveal_strlit("- ");
        reveal_strlit(" additional node");
        reveal_strlit("s");
        reveal_strlit(" would result in: ");
        reveal_strlit(" and subnet topology penalty before ");
        reveal_strlit(" => ");
        reveal_strlit(" after the change");
    }
    let mut s = String::new();
    push_str(&mut s, "- ");
    push_decimal(&mut s, st.nodes);
    push_str(&mut s, " additional node");
    if st.nodes > 1 {
        push_str(&mut s, "s");
    }
    push_str(&mut s, " would result in: ");
    push_str(&mut s, desc);
    if st.penalty_after > 0 || st.penalty_before != st.penalty_after {
        push_str(&mut s, " and subnet topology penalty before ");
        push_decimal(&mut s, st.penalty_before);
        push_str(&mut s, " => ");
        push_decimal(&mut s, st.penalty_after);
        push_str(&mut s, " after the change");
    }
    assert(s@ =~= step_line(*st, desc@));
    s
}

impl SubnetHealing {
    /// The motivation of the healing (see [`heal_motivation`]), with `descriptions` describing
    /// how each candidate's score compares with the one before.
    pub fn motivation(&self, descriptions: &Vec<String>) -> (r: String)
        requires
            descriptions@.len() == self.optimizations@.len(),
        ensures
            r@ == heal_motivation(
                texts(self.replacement_reasons@),
                self.optimizations@,
                texts(descriptions@),
                self.additional_nodes as int,
            ),
    {
        proof {
            reveal_strlit(" - ");
            reveal_strlit("\n");
            reveal_strlit("\n\nCalculated potential impact on subnet decentralization if replacing:\n\n");
            reveal_strlit("\n\nBased on the calculated potential impact, not replacing additional nodes to improve optimization.\n");
            reveal_strlit("\n\nBased on the calculated potential impact, replacing ");
            reveal_strlit(" additional nodes to improve optimization\n\nNote: the heuristic for node replacement relies not only on the Nakamoto coefficient but also on other factors that iteratively optimize network topology.\nDue to this, Nakamoto coefficients may not directly increase in every node replacement proposal.\nCode for comparing decentralization of two candidate subnet topologies is at:\nhttps://github.com/dfinity/dre/blob/79066127f58c852eaf4adda11610e815a426878c/rs/decentralization/src/nakamoto/mod.rs#L342\n");
            reveal_strlit("\nNote: the information below is provided for your convenience. Please independently verify the decentralization changes rather than relying solely on this summary.\nHere is [an explaination of how decentralization is currently calculated](https://dfinity.github.io/dre/decentralization.html), \nand there are also [instructions for performing what-if analysis](https://dfinity.github.io/dre/subnet-decentralization-whatif.html) if you are wondering if another node would have improved decentralization more.\n\n");
        }
        let mut bullets: Vec<String> = Vec::new();
        let mut i: usize = 0;
        while i < self.replacement_reasons.len()
            invariant
                i <= self.replacement_reasons@.len(),
                texts(bullets@) == texts(self.replacement_reasons@).take(i as int).map_values(|l: Seq<char>| " - "@ + l),
            decreases self.replacement_reasons.len() - i,
        {
            let mut b = String::new();
            push_str(&mut b, " - ");
            push_str(&mut b, self.replacement_reasons[i].as_str());
            let ghost before = bullets@;
            bullets.push(b);
            assert(texts(bullets@) =~= texts(before).push(" - "@ + self.replacement_reasons@[i as int]@));
            assert(texts(self.replacement_reasons@)[i as int] == self.replacement_reasons@[i as int]@);
            assert(texts(bullets@) =~= texts(self.replacement_reasons@).take(i as int + 1).map_values(|l: Seq<char>| " - "@ + l));
            i = i + 1;
        }
        assert(texts(self.replacement_reasons@).take(self.replacement_reasons@.len() as int) =~= texts(self.replacement_reasons@));
        let mut lines: Vec<String> = Vec::new();
        let mut k: usize = 0;
        let ghost want = Seq::new(
            self.optimizations@.len(),
            |k: int| step_line(self.optimizations@[k], texts(descriptions@)[k]),
        );
        while k < self.optimizations.len()
            invariant
                k <= self.optimizations@.len(),
                descriptions@.len() == self.optimizations@.len(),
                want == Seq::new(self.optimizations@.len(), |k: int| step_line(self.optimizations@[k], texts(descriptions@)[k])),
                texts(lines@) == want.take(k as int),
            decreases self.optimizations.len() - k,
        {
            let line = step_text(&self.optimizations[k], descriptions[k].as_str());
            let ghost before = lines@;
            lines.push(line);
            assert(texts(descriptions@)[k as int] == descriptions@[k as int]@);
            assert(want[k as int] == step_line(self.optimizations@[k as int], descriptions@[k as int]@));
            assert(texts(lines@) =~= texts(before).push(want[k as int]));
            assert(texts(lines@) =~= want.take(k as int + 1));
            k = k + 1;
        }
        assert(want.take(want.len() as int) =~= want);
        let mut s = String::new();
        push_str(&mut s, "\n");
        let joined = join_texts(&bullets, "\n");
        push_str(&mut s, joined.as_str());
        push_str(&mut s, "\n\nCalculated potential impact on subnet decentralization if replacing:\n\n");
        let steps_text = join_texts(&lines, "\n");
        push_str(&mut s, steps_text.as_str());
        if self.additional_nodes == 0 {
            push_str(&mut s, "\n\nBased on the calculated potential impact, not replacing additional nodes to improve optimization.\n");
        } else {
            push_str(&mut s, "\n\nBased on the calculated potential impact, replacing ");
            push_decimal(&mut s, self.additional_nodes);
            push_str(&mut s, " additional nodes to improve optimization\n\nNote: the heuristic for node replacement relies not only on the Nakamoto coefficient but also on other factors that iteratively optimize network topology.\nDue to this, Nakamoto coefficients may not directly increase in every node replacement proposal.\nCode for comparing decentralization of two candidate subnet topologies is at:\nhttps://github.com/dfinity/dre/blob/79066127f58c852eaf4adda11610e815a426878c/rs/decentralization/src/nakamoto/mod.rs#L342\n");
        }
        push_str(&mut s, "\nNote: the information below is provided for your convenience. Please independently verify the decentralization changes rather than relying solely on this summary.\nHere is [an explaination of how decentralization is currently calculated](https://dfinity.github.io/dre/decentralization.html), \nand there are also [instructions for performing what-if analysis](https://dfinity.github.io/dre/subnet-decentralization-whatif.html) if you are wondering if another node would have improved decentralization more.\n\n");
        assert(s@ =~= heal_motivation(
            texts(self.replacement_reasons@),
            self.optimizations@,
            texts(descriptions@),
            self.additional_nodes as int,
        ));
        s
    }

    /// The proposed change with the motivation of the healing (see
    /// [`SubnetHealing::motivation`]).
    pub fn into_change(self, descriptions: &Vec<String>) -> (r: SubnetChangeResponse)
        requires
            descriptions@.len() == self.optimizations@.len(),
        ensures
            r.motivation matches Some(m) && m@ == heal_motivation(
                texts(self.replacement_reasons@),
                self.optimizations@,
                texts(descriptions@),
                self.additional_nodes as int,
            ),
            r == (SubnetChangeResponse { motivation: r.motivation, ..self.change }),
    {
        let m = self.motivation(descriptions);
        self.change.with_motivation(m)
    }
}

/// The nodes, unhealthy nodes and cordoned nodes of the subnet that plan entry `e` stands for
/// (see [`heals_entry`]).
pub open spec fn entry_view(
    subnets: Seq<(String, DecentralizedSubnet)>,
    healths: Seq<(String, HealthStatus)>,
    cf: Seq<CordonedFeature>,
    e: PlanEntry,
) -> (Seq<Node>, Seq<Node>, Seq<(Node, Seq<char>)>) {
    let nodes = subnets[e.0 as int].1.nodes@;
    (
        nodes,
        if e.1 { unhealthy_nodes(healths, nodes) } else { Seq::empty() },
        if e.2 { cordoned_in(nodes, cf) } else { Seq::empty() },
    )
}

/// `x` heals the subnet of entry `j` of `plan`, chosen among candidate changes `cs` for it.
pub open spec fn heals_with(
    x: SubnetHealing,
    subnets: Seq<(String, DecentralizedSubnet)>,
    healths: Seq<(String, HealthStatus)>,
    cf: Seq<CordonedFeature>,
    plan: Seq<PlanEntry>,
    j: int,
    cs: Seq<SubnetChangeResponse>,
) -> bool {
    let v = entry_view(subnets, healths, cf, plan[j]);
    let repl = nodes_to_replace(v.0.len() as int, v.1, v.2);
    &&& 0 <= j < plan.len()
    &&& valid_candidates(cs, v.0, v.0.len() / 6 - repl.len())
    &&& is_healing(Some(x), v, repl, cs, healths)
}

/// `x` heals the subnet of some entry of `plan`, chosen among some candidate changes for it.
pub open spec fn healed_from(
    x: SubnetHealing,
    subnets: Seq<(String, DecentralizedSubnet)>,
    healths: Seq<(String, HealthStatus)>,
    cf: Seq<CordonedFeature>,
    plan: Seq<PlanEntry>,
) -> bool {
    exists|j: int, cs: Seq<SubnetChangeResponse>| #[trigger] heals_with(x, subnets, healths, cf, plan, j, cs)
}

/// The nodes of `available` whose principal is not among `ids`.
pub open spec fn without_ids(available: Seq<Node>, ids: Seq<Seq<char>>) -> Seq<Node> {
    available.filter(|n: Node| !ids.contains(n.principal@))
}

fn drop_added(available: &Vec<Node>, ids: &Vec<String>) -> (r: Vec<Node>)
    ensures
        r@ == without_ids(available@, texts(ids@)),
{
    let mut r: Vec<Node> = Vec::new();
    let mut i: usize = 0;
    assert(without_ids(available@.take(0), texts(ids@)) =~= Seq::<Node>::empty()) by {
        reveal(Seq::filter);
    }
    while i < available.len()
        invariant
            i <= available@.len(),
            r@ == without_ids(available@.take(i as int), texts(ids@)),
        decreases available.len() - i,
    {
        let ghost t = available@.take(i as int + 1);
        assert(t.drop_last() =~= available@.take(i as int));
        assert(t.last() == available@[i as int]);
        let mut found = false;
        let mut k: usize = 0;
        while k < ids.len()
            invariant
                k <= ids@.len(),
                i < available@.len(),
                found == texts(ids@).take(k as int).contains(available@[i as int].principal@),
            decreases ids.len() - k,
        {
            let ghost s0 = texts(ids@).take(k as int);
            let ghost s1 = texts(ids@).take(k as int + 1);
            let ghost p = available@[i as int].principal@;
            assert(s1 =~= s0.push(ids@[k as int]@));
            let eq = str_eq(ids[k].as_str(), available[i].principal.as_str());
            proof {
                if eq {
                    assert(s1[k as int] == p);
                } else if found {
                    let w = choose|w: int| 0 <= w < s0.len() && s0[w] == p;
                    assert(s1[w] == p);
                } else {
                    assert forall|w: int| 0 <= w < s1.len() implies s1[w] != p by {
                        if w < k {
                            assert(s1[w] == s0[w]);
                        }
                    }
                }
            }
            if eq {
                found = true;
            }
            k = k + 1;
        }
        assert(texts(ids@).take(ids@.len() as int) =~= texts(ids@));
        assert(without_ids(t, texts(ids@)) == if found {
            without_ids(available@.take(i as int), texts(ids@))
        } else {
            without_ids(available@.take(i as int), texts(ids@)).push(available@[i as int])
        }) by {
            reveal(Seq::filter);
        }
        if !found {
            r.push(available[i].copied());
        }
        i = i + 1;
    }
    assert(available@.take(available@.len() as int) =~= available@);
    r
}

/// Whether healing plan entry `e` with the available nodes `available` can give the candidate
/// changes `cs` and the healing `pick`, after which the nodes `next` are available: the
/// candidates for the entry's subnet (see [`healing_candidates`]), the healing chosen among them
/// (see [`is_healing`]), and the available nodes less those that the healing adds.
pub open spec fn heal_step(
    subnets: Seq<(String, DecentralizedSubnet)>,
    healths: Seq<(String, HealthStatus)>,
    cf: Seq<CordonedFeature>,
    all: Seq<Node>,
    e: PlanEntry,
    available: Seq<Node>,
    cs: Seq<SubnetChangeResponse>,
    pick: Option<SubnetHealing>,
    next: Seq<Node>,
) -> bool {
    let v = entry_view(subnets, healths, cf, e);
    let repl = nodes_to_replace(v.0.len() as int, v.1, v.2);
    &&& exists|h: NetworkHealSubnet|
        #[trigger] heals_entry(h, subnets, healths, cf, e) && healing_candidates(
            h.decentralized_subnet,
            replaced_nodes(repl),
            available,
            healths,
            cf,
            all,
            cs,
        )
    &&& is_healing(pick, v, repl, cs, healths)
    &&& next == match pick {
        Some(x) => without_ids(available, texts(x.change.node_ids_added@)),
        None => available,
    }
}

/// The healings among `picks`, in order.
pub open spec fn chosen_healings(picks: Seq<Option<SubnetHealing>>) -> Seq<SubnetHealing>
    decreases picks.len(),
{
    if picks.len() == 0 {
        Seq::empty()
    } else {
        let r = chosen_healings(picks.drop_last());
        match picks.last() {
            Some(x) => r.push(x),
            None => r,
        }
    }
}

/// Whether healing the entries of `plan` in order, starting with the available nodes
/// `available`, can give the candidate changes `css` and the healings `picks`, with the
/// available nodes `avails` before each entry and after the last (see [`heal_step`]).
pub open spec fn heal_trace(
    subnets: Seq<(String, DecentralizedSubnet)>,
    healths: Seq<(String, HealthStatus)>,
    cf: Seq<CordonedFeature>,
    all: Seq<Node>,
    plan: Seq<PlanEntry>,
    available: Seq<Node>,
    css: Seq<Seq<SubnetChangeResponse>>,
    picks: Seq<Option<SubnetHealing>>,
    avails: Seq<Seq<Node>>,
) -> bool {
    &&& css.len() == plan.len()
    &&& picks.len() == plan.len()
    &&& avails.len() == plan.len() + 1
    &&& avails[0] == available
    &&& forall|k: int|
        0 <= k < plan.len() ==> #[trigger] heal_step(subnets, healths, cf, all, plan[k], avails[k], css[k], picks[k], avails[k + 1])
}

proof fn lemma_summary_source(
    rs: Seq<SubnetChangeResponse>,
    outs: Seq<Result<SubnetChange, NetworkError>>,
    healths: Seq<(String, HealthStatus)>,
    i: int,
)
    requires
        summaries_of(rs, outs, healths),
        0 <= i < rs.len(),
    ensures
        exists|j: int| 0 <= j < outs.len() && (#[trigger] outs[j] matches Ok(c) && response_of(rs[i], c, healths)),
    decreases outs.len(),
{
    match outs.last() {
        Ok(c) => {
            if i == rs.len() - 1 {
                assert(outs[outs.len() - 1] == outs.last());
            } else {
                lemma_summary_source(rs.drop_last(), outs.drop_last(), healths, i);
                let j = choose|j: int|
                    0 <= j < outs.drop_last().len() && (#[trigger] outs.drop_last()[j] matches Ok(c) && response_of(rs.drop_last()[i], c, healths));
                assert(outs[j] == outs.drop_last()[j]);
            }
        },
        Err(_) => {
            lemma_summary_source(rs, outs.drop_last(), healths, i);
            let j = choose|j: int|
                0 <= j < outs.drop_last().len() && (#[trigger] outs.drop_last()[j] matches Ok(c) && response_of(rs[i], c, healths));
            assert(outs[j] == outs.drop_last()[j]);
        },
    }
}

proof fn lemma_attempt_removes(
    sub: DecentralizedSubnet,
    available: Seq<Node>,
    k: nat,
    repl: Seq<Node>,
    healths: Seq<(String, HealthStatus)>,
    cf: Seq<CordonedFeature>,
    all: Seq<Node>,
    c: SubnetChange,
)
    requires
        heal_attempt(sub, available, k, repl, healths, cf, all, Ok(c)),
        sub.removed_nodes@.len() == 0,
    ensures
        c.removed_nodes@.len() <= repl.len() + k,
{
    broadcast use vstd::seq_lib::group_filter_ensures;
    let out: Result<SubnetChange, NetworkError> = Ok(c);
    let req = choose|req: SubnetChangeRequest| #[trigger] heal_request(req, sub, available) && optimize_outcome(req, k, repl, healths, cf, all, out);
    crate::network::lemma_remove_each_added_len(req.subnet.nodes@, repl);
    match remove_each(req.subnet.nodes@, repl) {
        Err(_) => {},
        Ok(p) => {
            let s = choose|s: DecentralizedSubnet|
                #[trigger] subnet_without(req.subnet, repl, s) && resize_outcome(
                    SubnetChangeRequest { subnet: s, ..req },
                    req.subnet.nodes@,
                    k + repl.len(),
                    k,
                    healths,
                    cf,
                    all,
                    out,
                );
            let req2 = SubnetChangeRequest { subnet: s, ..req };
            assert(s.removed_nodes@.len() == repl.len());
            if k <= principals(req2.subnet.nodes@).to_set().len() {
                let rem = choose|rem: Seq<Node>|
                    removal_choice(req2.subnet.id@, req2.subnet.nodes@, all, rem, k) && #[trigger] resize_after_removal(
                        req2,
                        req.subnet.nodes@,
                        k + repl.len(),
                        rem,
                        healths,
                        cf,
                        all,
                        out,
                    );
                let x = remaining(req2.subnet.nodes@, rem) + req2.include_nodes@;
                assert(req2.nodes_to_remove@ =~= Seq::<Node>::empty());
                assert(remove_each(x, req2.nodes_to_remove@) == Ok::<(Seq<Node>, Seq<Node>), Seq<char>>((x, Seq::empty())));
            }
        },
    }
}

/// The healing that one step of a heal chooses, if any, replaces between one node and a sixth
/// of the nodes of the entry's subnet.
pub proof fn lemma_heal_step_removes_at_most_a_sixth(
    subnets: Seq<(String, DecentralizedSubnet)>,
    healths: Seq<(String, HealthStatus)>,
    cf: Seq<CordonedFeature>,
    all: Seq<Node>,
    e: PlanEntry,
    available: Seq<Node>,
    cs: Seq<SubnetChangeResponse>,
    x: SubnetHealing,
    next: Seq<Node>,
)
    requires
        heal_step(subnets, healths, cf, all, e, available, cs, Some(x), next),
    ensures
        1 <= x.change.node_ids_removed@.len() <= subnets[e.0 as int].1.nodes@.len() / 6,
{
    let v = entry_view(subnets, healths, cf, e);
    let repl = nodes_to_replace(v.0.len() as int, v.1, v.2);
    let h = choose|h: NetworkHealSubnet|
        #[trigger] heals_entry(h, subnets, healths, cf, e) && healing_candidates(
            h.decentralized_subnet,
            replaced_nodes(repl),
            available,
            healths,
            cf,
            all,
            cs,
        );
    let sub = h.decentralized_subnet;
    let rn = replaced_nodes(repl);
    let limit = sub.nodes@.len() / 6 - rn.len();
    assert(rn.len() <= sub.nodes@.len() / 6);
    let outs = choose|outs: Seq<Result<SubnetChange, NetworkError>>|
        #[trigger] summaries_of(cs, outs, healths) && outs.len() == limit + 1 && forall|k: int|
            0 <= k <= limit ==> heal_attempt(sub, available, k as nat, rn, healths, cf, all, #[trigger] outs[k]);
    let ci = chosen_index(cs);
    lemma_summary_source(cs, outs, healths, ci);
    let j = choose|j: int| 0 <= j < outs.len() && (#[trigger] outs[j] matches Ok(c) && response_of(cs[ci], c, healths));
    let c = outs[j]->Ok_0;
    assert(heal_attempt(sub, available, j as nat, rn, healths, cf, all, outs[j]));
    lemma_attempt_removes(sub, available, j as nat, rn, healths, cf, all, c);
    assert(texts(x.change.node_ids_removed@).len() == x.change.node_ids_removed@.len());
    assert(principals(c.removed_nodes@).len() == c.removed_nodes@.len());
}

/// The healings among `picks`, each with the step it comes from.
proof fn lemma_chosen_healing_source(picks: Seq<Option<SubnetHealing>>, i: int)
    requires
        0 <= i < chosen_healings(picks).len(),
    ensures
        exists|j: int| 0 <= j < picks.len() && #[trigger] picks[j] == Some(chosen_healings(picks)[i]),
    decreases picks.len(),
{
    let r = chosen_healings(picks.drop_last());
    if i < r.len() {
        lemma_chosen_healing_source(picks.drop_last(), i);
        let j = choose|j: int| 0 <= j < picks.drop_last().len() && #[trigger] picks.drop_last()[j] == Some(r[i]);
        assert(picks[j] == picks.drop_last()[j]);
        match picks.last() {
            Some(x) => assert(chosen_healings(picks)[i] == r.push(x)[i]),
            None => {},
        }
    } else {
        assert(picks[picks.len() - 1] == picks.last());
    }
}

/// Every healing of a heal replaces (removes) between one node and a sixth of the nodes of the
/// subnet it heals: never more than a sixth of a subnet is replaced at once.
pub proof fn lemma_heal_removes_at_most_a_sixth(
    subnets: Seq<(String, DecentralizedSubnet)>,
    healths: Seq<(String, HealthStatus)>,
    cf: Seq<CordonedFeature>,
    all: Seq<Node>,
    plan: Seq<PlanEntry>,
    available: Seq<Node>,
    css: Seq<Seq<SubnetChangeResponse>>,
    picks: Seq<Option<SubnetHealing>>,
    avails: Seq<Seq<Node>>,
    i: int,
)
    requires
        heal_trace(subnets, healths, cf, all, plan, available, css, picks, avails),
        0 <= i < chosen_healings(picks).len(),
    ensures
        exists|j: int|
            0 <= j < plan.len() && #[trigger] picks[j] == Some(chosen_healings(picks)[i]) && 1
                <= chosen_healings(picks)[i].change.node_ids_removed@.len() <= subnets[plan[j].0 as int].1.nodes@.len() / 6,
{
    lemma_chosen_healing_source(picks, i);
    let j = choose|j: int| 0 <= j < picks.len() && #[trigger] picks[j] == Some(chosen_healings(picks)[i]);
    assert(heal_step(subnets, healths, cf, all, plan[j], avails[j], css[j], picks[j], avails[j + 1]));
    lemma_heal_step_removes_at_most_a_sixth(
        subnets,
        healths,
        cf,
        all,
        plan[j],
        avails[j],
        css[j],
        chosen_healings(picks)[i],
        avails[j + 1],
    );
}

/// Without healing, every healing is for a subnet whose cordoned nodes are to be replaced
/// (only where `remove_cordoned`) or, where `optimize`, that breaks a business rule; with none
/// of the three flags there is no healing at all.
pub proof fn lemma_heal_without_heal_flag(
    subnets: Seq<(String, DecentralizedSubnet)>,
    healths: Seq<(String, HealthStatus)>,
    cf: Seq<CordonedFeature>,
    all: Seq<Node>,
    remove_cordoned: bool,
    optimize: bool,
    available: Seq<Node>,
    css: Seq<Seq<SubnetChangeResponse>>,
    picks: Seq<Option<SubnetHealing>>,
    avails: Seq<Seq<Node>>,
)
    requires
        heal_trace(
            subnets,
            healths,
            cf,
            all,
            fix_plan(subnets, healths, cf, remove_cordoned, optimize, false),
            available,
            css,
            picks,
            avails,
        ),
    ensures
        forall|i: int|
            #![trigger chosen_healings(picks)[i]]
            0 <= i < chosen_healings(picks).len() ==> exists|j: int|
                0 <= j < picks.len() && #[trigger] picks[j] == Some(chosen_healings(picks)[i]) && {
                    let e = fix_plan(subnets, healths, cf, remove_cordoned, optimize, false)[j];
                    (remove_cordoned && e.2) || (optimize && is_violating(subnets, e.0 as int))
                },
        !remove_cordoned && !optimize ==> chosen_healings(picks).len() == 0,
{
    lemma_plan_without_heal(subnets, healths, cf, remove_cordoned, optimize);
    let plan = fix_plan(subnets, healths, cf, remove_cordoned, optimize, false);
    assert forall|i: int| #![trigger chosen_healings(picks)[i]] 0 <= i < chosen_healings(picks).len() implies exists|j: int|
        0 <= j < picks.len() && #[trigger] picks[j] == Some(chosen_healings(picks)[i]) && {
            let e = plan[j];
            (remove_cordoned && e.2) || (optimize && is_violating(subnets, e.0 as int))
        } by {
        lemma_chosen_healing_source(picks, i);
        let j = choose|j: int| 0 <= j < picks.len() && #[trigger] picks[j] == Some(chosen_healings(picks)[i]);
        let e = plan[j];
        assert((remove_cordoned && e.2) || (optimize && is_violating(subnets, e.0 as int)));
    }
    if !remove_cordoned && !optimize && chosen_healings(picks).len() > 0 {
        lemma_chosen_healing_source(picks, 0);
    }
}

proof fn lemma_plan_pos_props(subnets: Seq<(String, DecentralizedSubnet)>, o: Seq<PlanEntry>, x: PlanEntry, pos: int)
    requires
        0 <= pos <= o.len(),
    ensures
        forall|k: int|
            plan_pos(subnets, o, x, pos) <= k < pos ==> priority_lt(
                entry_priority(subnets, #[trigger] o[k]),
                entry_priority(subnets, x),
            ),
        plan_pos(subnets, o, x, pos) > 0 ==> !priority_lt(
            entry_priority(subnets, o[plan_pos(subnets, o, x, pos) - 1]),
            entry_priority(subnets, x),
        ),
    decreases pos,
{
    if pos > 0 && priority_lt(entry_priority(subnets, o[pos - 1]), entry_priority(subnets, x)) {
        lemma_plan_pos_props(subnets, o, x, pos - 1);
    }
}

/// Whether the entries of `p` come in order of priority, highest first.
pub open spec fn plan_sorted(subnets: Seq<(String, DecentralizedSubnet)>, p: Seq<PlanEntry>) -> bool {
    forall|i: int, j: int|
        0 <= i < j < p.len() ==> !priority_lt(entry_priority(subnets, #[trigger] p[i]), entry_priority(subnets, #[trigger] p[j]))
}

/// A sorted plan comes in order of priority, highest first.
pub proof fn lemma_sort_plan_sorted(subnets: Seq<(String, DecentralizedSubnet)>, p: Seq<PlanEntry>)
    ensures
        plan_sorted(subnets, sort_plan(subnets, p)),
    decreases p.len(),
{
    if p.len() > 0 {
        lemma_sort_plan_sorted(subnets, p.drop_last());
        let o = sort_plan(subnets, p.drop_last());
        let x = p.last();
        let q = plan_pos(subnets, o, x, o.len() as int);
        lemma_plan_pos_bounds(subnets, o, x, o.len() as int);
        lemma_plan_pos_props(subnets, o, x, o.len() as int);
        let t = sort_plan(subnets, p);
        assert(t == o.insert(q, x));
        assert forall|i: int, j: int| 0 <= i < j < t.len() implies !priority_lt(
            entry_priority(subnets, #[trigger] t[i]),
            entry_priority(subnets, #[trigger] t[j]),
        ) by {
            if j < q {
                assert(t[i] == o[i] && t[j] == o[j]);
            } else if j == q {
                assert(t[i] == o[i]);
                assert(!priority_lt(entry_priority(subnets, o[q - 1]), entry_priority(subnets, x)));
                if i < q - 1 {
                    assert(!priority_lt(entry_priority(subnets, o[i]), entry_priority(subnets, o[q - 1])));
                }
            } else if i < q {
                assert(t[i] == o[i] && t[j] == o[j - 1]);
            } else if i == q {
                assert(t[j] == o[j - 1]);
                assert(priority_lt(entry_priority(subnets, o[j - 1]), entry_priority(subnets, x)));
            } else {
                assert(t[i] == o[i - 1] && t[j] == o[j - 1]);
            }
        }
    }
}

proof fn lemma_chosen_healing_order(picks: Seq<Option<SubnetHealing>>, i1: int, i2: int)
    requires
        0 <= i1 < i2 < chosen_healings(picks).len(),
    ensures
        exists|j1: int, j2: int|
            0 <= j1 < j2 < picks.len() && #[trigger] picks[j1] == Some(chosen_healings(picks)[i1]) && #[trigger] picks[j2]
                == Some(chosen_healings(picks)[i2]),
    decreases picks.len(),
{
    let r = chosen_healings(picks.drop_last());
    if i2 < r.len() {
        lemma_chosen_healing_order(picks.drop_last(), i1, i2);
        let (j1, j2) = choose|j1: int, j2: int|
            0 <= j1 < j2 < picks.drop_last().len() && #[trigger] picks.drop_last()[j1] == Some(r[i1]) && #[trigger] picks.drop_last()[j2]
                == Some(r[i2]);
        assert(picks[j1] == picks.drop_last()[j1]);
        assert(picks[j2] == picks.drop_last()[j2]);
        match picks.last() {
            Some(x) => {
                assert(chosen_healings(picks)[i1] == r.push(x)[i1]);
                assert(chosen_healings(picks)[i2] == r.push(x)[i2]);
            },
            None => {},
        }
    } else {
        lemma_chosen_healing_source(picks.drop_last(), i1);
        let j1 = choose|j1: int| 0 <= j1 < picks.drop_last().len() && #[trigger] picks.drop_last()[j1] == Some(r[i1]);
        assert(picks[j1] == picks.drop_last()[j1]);
        assert(picks[picks.len() - 1] == picks.last());
        match picks.last() {
            Some(x) => {
                assert(chosen_healings(picks)[i1] == r.push(x)[i1]);
            },
            None => {},
        }
    }
}

/// The healings of a heal come in the order of their subnets' priority: a healing of a more
/// important subnet, or of a larger one of the same importance, never comes after one of a less
/// important or smaller subnet.
pub proof fn lemma_heal_in_priority_order(
    subnets: Seq<(String, DecentralizedSubnet)>,
    healths: Seq<(String, HealthStatus)>,
    cf: Seq<CordonedFeature>,
    all: Seq<Node>,
    remove_cordoned: bool,
    optimize: bool,
    heal: bool,
    available: Seq<Node>,
    css: Seq<Seq<SubnetChangeResponse>>,
    picks: Seq<Option<SubnetHealing>>,
    avails: Seq<Seq<Node>>,
    i1: int,
    i2: int,
)
    requires
        heal_trace(
            subnets,
            healths,
            cf,
            all,
            fix_plan(subnets, healths, cf, remove_cordoned, optimize, heal),
            available,
            css,
            picks,
            avails,
        ),
        0 <= i1 < i2 < chosen_healings(picks).len(),
    ensures
        exists|j1: int, j2: int|
            0 <= j1 < j2 < picks.len() && #[trigger] picks[j1] == Some(chosen_healings(picks)[i1]) && #[trigger] picks[j2]
                == Some(chosen_healings(picks)[i2]) && !priority_lt(
                entry_priority(subnets, fix_plan(subnets, healths, cf, remove_cordoned, optimize, heal)[j1]),
                entry_priority(subnets, fix_plan(subnets, healths, cf, remove_cordoned, optimize, heal)[j2]),
            ),
{
    let plan = fix_plan(subnets, healths, cf, remove_cordoned, optimize, heal);
    lemma_chosen_healing_order(picks, i1, i2);
    let (j1, j2) = choose|j1: int, j2: int|
        0 <= j1 < j2 < picks.len() && #[trigger] picks[j1] == Some(chosen_healings(picks)[i1]) && #[trigger] picks[j2]
            == Some(chosen_healings(picks)[i2]);
    let n = subnets.len() as int;
    let p1 = sort_plan(subnets, unhealthy_plan(subnets, healths, n));
    let p2 = if remove_cordoned {
        merge_plan(p1, sort_plan(subnets, cordoned_plan(subnets, cf, n)))
    } else {
        p1
    };
    let p3 = if optimize {
        add_violating(p2, subnets, n)
    } else {
        p2
    };
    let p4 = if heal {
        p3
    } else {
        keep_plan(p3, subnets, optimize)
    };
    lemma_sort_plan_sorted(subnets, p4);
    assert(plan == sort_plan(subnets, p4));
    assert(!priority_lt(entry_priority(subnets, plan[j1]), entry_priority(subnets, plan[j2])));
}

/// Whether `n` is one of the available nodes `available`, healthy and not cordoned.
pub open spec fn usable_spare(available: Seq<Node>, healths: Seq<(String, HealthStatus)>, cf: Seq<CordonedFeature>, n: Node) -> bool {
    &&& available.contains(n)
    &&& health_of(healths, n.principal@) == HealthStatus::Healthy
    &&& !is_cordoned(n, cf)
}

/// A node of `pool` satisfies the filter that made it.
proof fn lemma_usable_member(w: Seq<Node>, healths: Seq<(String, HealthStatus)>, cf: Seq<CordonedFeature>, e: Node)
    requires
        usable(w, healths, cf).contains(e),
    ensures
        w.contains(e),
        health_of(healths, e.principal@) == HealthStatus::Healthy,
        !is_cordoned(e, cf),
{
    broadcast use vstd::seq_lib::group_filter_ensures;
    let pred = |n: Node| health_of(healths, n.principal@) == HealthStatus::Healthy && !is_cordoned(n, cf);
    let u = usable(w, healths, cf);
    w.lemma_filter_contains_rev(pred, e);
    let k = choose|k: int| 0 <= k < u.len() && u[k] == e;
    assert(pred(u[k]));
}

proof fn lemma_after_removal_adds(
    req2: SubnetChangeRequest,
    old: Seq<Node>,
    add: nat,
    rem: Seq<Node>,
    healths: Seq<(String, HealthStatus)>,
    cf: Seq<CordonedFeature>,
    all: Seq<Node>,
    c: SubnetChange,
    i: int,
)
    requires
        resize_after_removal(req2, old, add, rem, healths, cf, all, Ok(c)),
        req2.nodes_to_remove@.len() == 0,
        req2.include_nodes@.len() == 0,
        req2.subnet.added_nodes@.len() == 0,
        0 <= i < c.added_nodes@.len(),
    ensures
        req2.available_nodes@.contains(c.added_nodes@[i]),
        health_of(healths, c.added_nodes@[i].principal@) == HealthStatus::Healthy,
        !is_cordoned(c.added_nodes@[i], cf),
{
    broadcast use vstd::seq_lib::group_filter_ensures;
    let x = remaining(req2.subnet.nodes@, rem) + req2.include_nodes@;
    assert(req2.nodes_to_remove@ =~= Seq::<Node>::empty());
    assert(remove_each(x, req2.nodes_to_remove@) == Ok::<(Seq<Node>, Seq<Node>), Seq<char>>((x, Seq::empty())));
    let pool = crate::request::extension_pool(req2, rem, healths, cf);
    let added = c.new_nodes@.skip(x.len() as int);
    let removed = req2.subnet.removed_nodes@ + rem + Seq::<Node>::empty();
    let all_added = req2.subnet.added_nodes@ + req2.include_nodes@ + added;
    assert(all_added =~= added);
    let e = c.added_nodes@[i];
    let wpred = |n: Node| !principals(removed).contains(n.principal@);
    assert(c.added_nodes@ == all_added.filter(wpred));
    assert(wpred(e));
    all_added.lemma_filter_contains_rev(wpred, e);
    let ka = choose|ka: int| 0 <= ka < added.len() && added[ka] == e;
    assert(pool.contains(added[ka]));
    let r = req2.subnet.removed_nodes@ + rem;
    let w0 = without_principals_of(req2.available_nodes@, req2.include_nodes@);
    let u = usable(w0, healths, cf);
    lemma_usable_member(u + r, healths, cf, e);
    if r.contains(e) {
        let kr = choose|kr: int| 0 <= kr < r.len() && r[kr] == e;
        assert(removed[kr] == e);
        assert(principals(removed)[kr] == e.principal@);
    }
    let ku = choose|ku: int| 0 <= ku < (u + r).len() && (u + r)[ku] == e;
    if ku >= u.len() {
        assert(r[ku - u.len()] == e);
    }
    assert(u[ku] == e);
    lemma_usable_member(w0, healths, cf, e);
    let ipred = |n: Node| !principals(req2.include_nodes@).contains(n.principal@);
    req2.available_nodes@.lemma_filter_contains_rev(ipred, e);
}

proof fn lemma_attempt_adds(
    sub: DecentralizedSubnet,
    available: Seq<Node>,
    k: nat,
    repl: Seq<Node>,
    healths: Seq<(String, HealthStatus)>,
    cf: Seq<CordonedFeature>,
    all: Seq<Node>,
    c: SubnetChange,
    i: int,
)
    requires
        heal_attempt(sub, available, k, repl, healths, cf, all, Ok(c)),
        sub.added_nodes@.len() == 0,
        0 <= i < c.added_nodes@.len(),
    ensures
        available.contains(c.added_nodes@[i]),
        health_of(healths, c.added_nodes@[i].principal@) == HealthStatus::Healthy,
        !is_cordoned(c.added_nodes@[i], cf),
{
    let out: Result<SubnetChange, NetworkError> = Ok(c);
    let req = choose|req: SubnetChangeRequest| #[trigger] heal_request(req, sub, available) && optimize_outcome(req, k, repl, healths, cf, all, out);
    match remove_each(req.subnet.nodes@, repl) {
        Err(_) => {},
        Ok(p) => {
            let s = choose|s: DecentralizedSubnet|
                #[trigger] subnet_without(req.subnet, repl, s) && resize_outcome(
                    SubnetChangeRequest { subnet: s, ..req },
                    req.subnet.nodes@,
                    k + repl.len(),
                    k,
                    healths,
                    cf,
                    all,
                    out,
                );
            let req2 = SubnetChangeRequest { subnet: s, ..req };
            if k <= principals(req2.subnet.nodes@).to_set().len() {
                let rem = choose|rem: Seq<Node>|
                    removal_choice(req2.subnet.id@, req2.subnet.nodes@, all, rem, k) && #[trigger] resize_after_removal(
                        req2,
                        req.subnet.nodes@,
                        k + repl.len(),
                        rem,
                        healths,
                        cf,
                        all,
                        out,
                    );
                lemma_after_removal_adds(req2, req.subnet.nodes@, k + repl.len(), rem, healths, cf, all, c, i);
            }
        },
    }
}

/// The attempt whose change the healing of one step of a heal takes.
proof fn lemma_heal_step_source(
    subnets: Seq<(String, DecentralizedSubnet)>,
    healths: Seq<(String, HealthStatus)>,
    cf: Seq<CordonedFeature>,
    all: Seq<Node>,
    e: PlanEntry,
    available: Seq<Node>,
    cs: Seq<SubnetChangeResponse>,
    x: SubnetHealing,
    next: Seq<Node>,
) -> (r: (DecentralizedSubnet, Seq<Node>, int, SubnetChange))
    requires
        heal_step(subnets, healths, cf, all, e, available, cs, Some(x), next),
    ensures
        heal_attempt(r.0, available, r.2 as nat, r.1, healths, cf, all, Ok(r.3)),
        r.0.added_nodes@.len() == 0,
        r.0.removed_nodes@.len() == 0,
        r.0.nodes@ == subnets[e.0 as int].1.nodes@,
        r.1 == replaced_nodes(
            nodes_to_replace(
                entry_view(subnets, healths, cf, e).0.len() as int,
                entry_view(subnets, healths, cf, e).1,
                entry_view(subnets, healths, cf, e).2,
            ),
        ),
        texts(x.change.node_ids_added@) == principals(r.3.added_nodes@),
        texts(x.change.node_ids_removed@) == principals(r.3.removed_nodes@),
{
    let v = entry_view(subnets, healths, cf, e);
    let repl = nodes_to_replace(v.0.len() as int, v.1, v.2);
    let h = choose|h: NetworkHealSubnet|
        #[trigger] heals_entry(h, subnets, healths, cf, e) && healing_candidates(
            h.decentralized_subnet,
            replaced_nodes(repl),
            available,
            healths,
            cf,
            all,
            cs,
        );
    let sub = h.decentralized_subnet;
    let rn = replaced_nodes(repl);
    let limit = sub.nodes@.len() / 6 - rn.len();
    assert(rn.len() <= sub.nodes@.len() / 6);
    let outs = choose|outs: Seq<Result<SubnetChange, NetworkError>>|
        #[trigger] summaries_of(cs, outs, healths) && outs.len() == limit + 1 && forall|k: int|
            0 <= k <= limit ==> heal_attempt(sub, available, k as nat, rn, healths, cf, all, #[trigger] outs[k]);
    let ci = chosen_index(cs);
    lemma_summary_source(cs, outs, healths, ci);
    let j = choose|j: int| 0 <= j < outs.len() && (#[trigger] outs[j] matches Ok(c) && response_of(cs[ci], c, healths));
    let c = outs[j]->Ok_0;
    assert(heal_attempt(sub, available, j as nat, rn, healths, cf, all, outs[j]));
    (sub, rn, j, c)
}

proof fn lemma_remove_each_principals(nodes: Seq<Node>, rm: Seq<Node>)
    ensures
        remove_each(nodes, rm) matches Ok(p) ==> principals(p.1) == principals(rm),
    decreases rm.len(),
{
    if rm.len() > 0 {
        lemma_remove_each_principals(nodes, rm.drop_last());
        match remove_each(nodes, rm.drop_last()) {
            Ok(p) => {
                crate::network::lemma_position_bounds(p.0, rm.last().principal@);
                let i = crate::network::position_of(p.0, rm.last().principal@);
                if i >= 0 {
                    assert(principals(p.1.push(p.0[i])) =~= principals(p.1).push(p.0[i].principal@));
                    assert(principals(rm) =~= principals(rm.drop_last()).push(rm.last().principal@));
                }
            },
            Err(_) => {},
        }
    }
}

proof fn lemma_after_removal_removes(
    req2: SubnetChangeRequest,
    old: Seq<Node>,
    add: nat,
    rem: Seq<Node>,
    healths: Seq<(String, HealthStatus)>,
    cf: Seq<CordonedFeature>,
    all: Seq<Node>,
    c: SubnetChange,
    q: Seq<char>,
)
    requires
        resize_after_removal(req2, old, add, rem, healths, cf, all, Ok(c)),
        req2.nodes_to_remove@.len() == 0,
        req2.include_nodes@.len() == 0,
        req2.subnet.added_nodes@.len() == 0,
        principals(req2.subnet.removed_nodes@).contains(q),
        health_of(healths, q) != HealthStatus::Healthy,
    ensures
        principals(c.removed_nodes@).contains(q),
{
    broadcast use vstd::seq_lib::group_filter_ensures;
    let x = remaining(req2.subnet.nodes@, rem) + req2.include_nodes@;
    assert(req2.nodes_to_remove@ =~= Seq::<Node>::empty());
    assert(remove_each(x, req2.nodes_to_remove@) == Ok::<(Seq<Node>, Seq<Node>), Seq<char>>((x, Seq::empty())));
    let pool = crate::request::extension_pool(req2, rem, healths, cf);
    let added = c.new_nodes@.skip(x.len() as int);
    let removed = req2.subnet.removed_nodes@ + rem + Seq::<Node>::empty();
    let all_added = req2.subnet.added_nodes@ + req2.include_nodes@ + added;
    assert(all_added =~= added);
    let rs = req2.subnet.removed_nodes@;
    let km = choose|km: int| 0 <= km < principals(rs).len() && principals(rs)[km] == q;
    let m = rs[km];
    assert(removed[km] == m);
    if principals(all_added).contains(q) {
        let ka = choose|ka: int| 0 <= ka < principals(all_added).len() && principals(all_added)[ka] == q;
        let a = all_added[ka];
        assert(added[ka] == a);
        assert(pool.contains(added[ka]));
        let r = req2.subnet.removed_nodes@ + rem;
        let w0 = without_principals_of(req2.available_nodes@, req2.include_nodes@);
        lemma_usable_member(usable(w0, healths, cf) + r, healths, cf, a);
    }
    let wpred = |n: Node| !principals(all_added).contains(n.principal@);
    assert(c.removed_nodes@ == removed.filter(wpred));
    assert(wpred(removed[km]));
    removed.lemma_filter_contains(wpred, km);
    let kc = choose|kc: int| 0 <= kc < c.removed_nodes@.len() && c.removed_nodes@[kc] == m;
    assert(principals(c.removed_nodes@)[kc] == q);
}

proof fn lemma_attempt_removes_unhealthy(
    sub: DecentralizedSubnet,
    available: Seq<Node>,
    k: nat,
    repl: Seq<Node>,
    healths: Seq<(String, HealthStatus)>,
    cf: Seq<CordonedFeature>,
    all: Seq<Node>,
    c: SubnetChange,
    q: Seq<char>,
)
    requires
        heal_attempt(sub, available, k, repl, healths, cf, all, Ok(c)),
        sub.added_nodes@.len() == 0,
        sub.removed_nodes@.len() == 0,
        principals(repl).contains(q),
        health_of(healths, q) != HealthStatus::Healthy,
    ensures
        principals(c.removed_nodes@).contains(q),
{
    let out: Result<SubnetChange, NetworkError> = Ok(c);
    let req = choose|req: SubnetChangeRequest| #[trigger] heal_request(req, sub, available) && optimize_outcome(req, k, repl, healths, cf, all, out);
    lemma_remove_each_principals(req.subnet.nodes@, repl);
    match remove_each(req.subnet.nodes@, repl) {
        Err(_) => {},
        Ok(p) => {
            let s = choose|s: DecentralizedSubnet|
                #[trigger] subnet_without(req.subnet, repl, s) && resize_outcome(
                    SubnetChangeRequest { subnet: s, ..req },
                    req.subnet.nodes@,
                    k + repl.len(),
                    k,
                    healths,
                    cf,
                    all,
                    out,
                );
            let req2 = SubnetChangeRequest { subnet: s, ..req };
            assert(s.removed_nodes@ =~= p.1);
            if k <= principals(req2.subnet.nodes@).to_set().len() {
                let rem = choose|rem: Seq<Node>|
                    removal_choice(req2.subnet.id@, req2.subnet.nodes@, all, rem, k) && #[trigger] resize_after_removal(
                        req2,
                        req.subnet.nodes@,
                        k + repl.len(),
                        rem,
                        healths,
                        cf,
                        all,
                        out,
                    );
                lemma_after_removal_removes(req2, req.subnet.nodes@, k + repl.len(), rem, healths, cf, all, c, q);
            }
        },
    }
}

/// The healing of one step of a heal removes every node to replace that is not healthy (by
/// principal): an unhealthy node is never kept, nor added back.
pub proof fn lemma_heal_step_replaces_unhealthy(
    subnets: Seq<(String, DecentralizedSubnet)>,
    healths: Seq<(String, HealthStatus)>,
    cf: Seq<CordonedFeature>,
    all: Seq<Node>,
    e: PlanEntry,
    available: Seq<Node>,
    cs: Seq<SubnetChangeResponse>,
    x: SubnetHealing,
    next: Seq<Node>,
    q: Seq<char>,
)
    requires
        heal_step(subnets, healths, cf, all, e, available, cs, Some(x), next),
        principals(
            replaced_nodes(
                nodes_to_replace(
                    entry_view(subnets, healths, cf, e).0.len() as int,
                    entry_view(subnets, healths, cf, e).1,
                    entry_view(subnets, healths, cf, e).2,
                ),
            ),
        ).contains(q),
        health_of(healths, q) != HealthStatus::Healthy,
    ensures
        texts(x.change.node_ids_removed@).contains(q),
{
    let (sub, rn, j, c) = lemma_heal_step_source(subnets, healths, cf, all, e, available, cs, x, next);
    lemma_attempt_removes_unhealthy(sub, available, j as nat, rn, healths, cf, all, c, q);
}

proof fn lemma_dedup_pairs_keeps(s: Seq<(Node, Seq<char>)>, k: int)
    requires
        0 <= k < s.len(),
    ensures
        pair_in(dedup_pairs(s), s[k]),
    decreases s.len(),
{
    let r = dedup_pairs(s.drop_last());
    if k < s.len() - 1 {
        lemma_dedup_pairs_keeps(s.drop_last(), k);
        assert(s.drop_last()[k] == s[k]);
        if !pair_in(r, s.last()) {
            let w = choose|w: int| 0 <= w < r.len() && (#[trigger] r[w]).0.principal@ == s[k].0.principal@ && r[w].1 == s[k].1;
            assert(r.push(s.last())[w] == r[w]);
        }
    } else {
        if !pair_in(r, s.last()) {
            assert(r.push(s.last())[r.len() as int] == s.last());
        }
    }
}

/// When the unhealthy and cordoned nodes of a subnet, without repeats, are at most a sixth of it,
/// every unhealthy node is among the nodes to replace (by principal).
pub proof fn lemma_unhealthy_are_replaced(size: int, unhealthy: Seq<Node>, cordoned: Seq<(Node, Seq<char>)>, k: int)
    requires
        dedup_pairs(unhealthy.map_values(|n: Node| (n, "unhealthy"@)) + cordoned).len() <= size / 6,
        0 <= k < unhealthy.len(),
    ensures
        principals(replaced_nodes(nodes_to_replace(size, unhealthy, cordoned))).contains(unhealthy[k].principal@),
{
    let all = unhealthy.map_values(|n: Node| (n, "unhealthy"@)) + cordoned;
    assert(all[k] == (unhealthy[k], "unhealthy"@));
    lemma_dedup_pairs_keeps(all, k);
    let d = dedup_pairs(all);
    assert(nodes_to_replace(size, unhealthy, cordoned) == d);
    let w = choose|w: int| 0 <= w < d.len() && (#[trigger] d[w]).0.principal@ == all[k].0.principal@ && d[w].1 == all[k].1;
    assert(principals(replaced_nodes(d))[w] == unhealthy[k].principal@);
}

/// No principal is both among the nodes of `a` not in `b` and among those of `b` not in `a`.
proof fn lemma_without_each_other(a: Seq<Node>, b: Seq<Node>, q: Seq<char>)
    ensures
        !(principals(without_principals_of(a, b)).contains(q) && principals(without_principals_of(b, a)).contains(q)),
{
    broadcast use vstd::seq_lib::group_filter_ensures;
    let wa = without_principals_of(a, b);
    let wb = without_principals_of(b, a);
    if principals(wa).contains(q) && principals(wb).contains(q) {
        let i = choose|i: int| 0 <= i < principals(wa).len() && principals(wa)[i] == q;
        let j = choose|j: int| 0 <= j < principals(wb).len() && principals(wb)[j] == q;
        let pa = |n: Node| !principals(b).contains(n.principal@);
        assert(pa(wa[i]));
        b.lemma_filter_contains_rev(|n: Node| !principals(a).contains(n.principal@), wb[j]);
        let k = choose|k: int| 0 <= k < b.len() && b[k] == wb[j];
        assert(principals(b)[k] == q);
    }
}

proof fn lemma_attempt_disjoint(
    sub: DecentralizedSubnet,
    available: Seq<Node>,
    k: nat,
    repl: Seq<Node>,
    healths: Seq<(String, HealthStatus)>,
    cf: Seq<CordonedFeature>,
    all: Seq<Node>,
    c: SubnetChange,
    q: Seq<char>,
)
    requires
        heal_attempt(sub, available, k, repl, healths, cf, all, Ok(c)),
    ensures
        !(principals(c.added_nodes@).contains(q) && principals(c.removed_nodes@).contains(q)),
{
    let out: Result<SubnetChange, NetworkError> = Ok(c);
    let req = choose|req: SubnetChangeRequest| #[trigger] heal_request(req, sub, available) && optimize_outcome(req, k, repl, healths, cf, all, out);
    match remove_each(req.subnet.nodes@, repl) {
        Err(_) => {},
        Ok(p) => {
            let s = choose|s: DecentralizedSubnet|
                #[trigger] subnet_without(req.subnet, repl, s) && resize_outcome(
                    SubnetChangeRequest { subnet: s, ..req },
                    req.subnet.nodes@,
                    k + repl.len(),
                    k,
                    healths,
                    cf,
                    all,
                    out,
                );
            let req2 = SubnetChangeRequest { subnet: s, ..req };
            if k <= principals(req2.subnet.nodes@).to_set().len() {
                let rem = choose|rem: Seq<Node>|
                    removal_choice(req2.subnet.id@, req2.subnet.nodes@, all, rem, k) && #[trigger] resize_after_removal(
                        req2,
                        req.subnet.nodes@,
                        k + repl.len(),
                        rem,
                        healths,
                        cf,
                        all,
                        out,
                    );
                let x = remaining(req2.subnet.nodes@, rem) + req2.include_nodes@;
                match remove_each(x, req2.nodes_to_remove@) {
                    Err(_) => {},
                    Ok(t) => {
                        let added = c.new_nodes@.skip(t.0.len() as int);
                        let removed = req2.subnet.removed_nodes@ + rem + t.1;
                        let all_added = req2.subnet.added_nodes@ + req2.include_nodes@ + added;
                        lemma_without_each_other(all_added, removed, q);
                    },
                }
            }
        },
    }
}

/// The healing of one step of a heal never both adds and removes the same principal.
pub proof fn lemma_heal_step_added_not_removed(
    subnets: Seq<(String, DecentralizedSubnet)>,
    healths: Seq<(String, HealthStatus)>,
    cf: Seq<CordonedFeature>,
    all: Seq<Node>,
    e: PlanEntry,
    available: Seq<Node>,
    cs: Seq<SubnetChangeResponse>,
    x: SubnetHealing,
    next: Seq<Node>,
    q: Seq<char>,
)
    requires
        heal_step(subnets, healths, cf, all, e, available, cs, Some(x), next),
    ensures
        !(texts(x.change.node_ids_added@).contains(q) && texts(x.change.node_ids_removed@).contains(q)),
{
    let (sub, rn, j, c) = lemma_heal_step_source(subnets, healths, cf, all, e, available, cs, x, next);
    lemma_attempt_disjoint(sub, available, j as nat, rn, healths, cf, all, c, q);
}

proof fn lemma_set_split<A>(x: Set<A>, y: Set<A>)
    requires
        x.finite(),
    ensures
        x.difference(y).len() + x.intersect(y).len() == x.len(),
    decreases x.len(),
{
    broadcast use vstd::set::group_set_axioms, vstd::set_lib::group_set_properties;
    if x.len() == 0 {
        assert(x =~= Set::<A>::empty());
        assert(x.difference(y) =~= Set::<A>::empty());
        assert(x.intersect(y) =~= Set::<A>::empty());
    } else {
        let a = x.choose();
        lemma_set_split(x.remove(a), y);
        if y.contains(a) {
            assert(x.difference(y) =~= x.remove(a).difference(y));
            assert(x.intersect(y) =~= x.remove(a).intersect(y).insert(a));
        } else {
            assert(x.difference(y) =~= x.remove(a).difference(y).insert(a));
            assert(x.intersect(y) =~= x.remove(a).intersect(y));
        }
    }
}

proof fn lemma_without_len(a: Seq<Node>, r: Seq<Node>)
    requires
        principals(a).no_duplicates(),
    ensures
        without_principals_of(a, r).len() == principals(a).to_set().difference(principals(r).to_set()).len(),
    decreases a.len(),
{
    broadcast use vstd::set::group_set_axioms, vstd::set_lib::group_set_properties, vstd::seq_lib::group_seq_properties;
    reveal(Seq::filter);
    let pr = principals(r).to_set();
    if a.len() == 0 {
        assert(principals(a).to_set() =~= Set::<Seq<char>>::empty());
        assert(principals(a).to_set().difference(pr) =~= Set::<Seq<char>>::empty());
    } else {
        let d = a.drop_last();
        let x = a.last();
        assert(principals(d) =~= principals(a).drop_last());
        assert(principals(d).no_duplicates());
        lemma_without_len(d, r);
        assert(principals(a) =~= principals(d).push(x.principal@));
        assert(principals(a).to_set() =~= principals(d).to_set().insert(x.principal@));
        assert(!principals(d).to_set().contains(x.principal@)) by {
            if principals(d).contains(x.principal@) {
                let k = choose|k: int| 0 <= k < principals(d).len() && principals(d)[k] == x.principal@;
                assert(principals(a)[k] == principals(a)[a.len() - 1]);
            }
        }
        let pd = principals(d).to_set();
        if pr.contains(x.principal@) {
            assert(pd.insert(x.principal@).difference(pr) =~= pd.difference(pr));
        } else {
            assert(pd.insert(x.principal@).difference(pr) =~= pd.difference(pr).insert(x.principal@));
        }
        assert(without_principals_of(a, r) == if !principals(r).contains(x.principal@) {
            without_principals_of(d, r).push(x)
        } else {
            without_principals_of(d, r)
        });
    }
}

/// Taking out of `a` the nodes with a principal of `r` and out of `r` those with a principal of
/// `a` leaves as many nodes of each, when both have as many distinct principals.
proof fn lemma_without_each_other_len(a: Seq<Node>, r: Seq<Node>)
    requires
        principals(a).no_duplicates(),
        principals(r).no_duplicates(),
        a.len() == r.len(),
    ensures
        without_principals_of(a, r).len() == without_principals_of(r, a).len(),
{
    let pa = principals(a).to_set();
    let pr = principals(r).to_set();
    lemma_without_len(a, r);
    lemma_without_len(r, a);
    principals(a).unique_seq_to_set();
    principals(r).unique_seq_to_set();
    lemma_set_split(pa, pr);
    lemma_set_split(pr, pa);
    assert(pa.intersect(pr) =~= pr.intersect(pa));
}

proof fn lemma_remove_each_distinct(nodes: Seq<Node>, rm: Seq<Node>)
    requires
        principals(nodes).no_duplicates(),
    ensures
        remove_each(nodes, rm) matches Ok(p) ==> {
            &&& principals(p.0).no_duplicates()
            &&& principals(p.1).no_duplicates()
            &&& forall|q: Seq<char>| principals(p.0).contains(q) ==> !principals(p.1).contains(q)
        },
    decreases rm.len(),
{
    if rm.len() > 0 {
        lemma_remove_each_distinct(nodes, rm.drop_last());
        match remove_each(nodes, rm.drop_last()) {
            Ok(p) => {
                crate::network::lemma_position_bounds(p.0, rm.last().principal@);
                let i = crate::network::position_of(p.0, rm.last().principal@);
                if i >= 0 {
                    let n0 = p.0.remove(i);
                    let n1 = p.1.push(p.0[i]);
                    let pp = principals(p.0);
                    assert(principals(n0) =~= pp.remove(i));
                    assert(principals(n1) =~= principals(p.1).push(pp[i]));
                    assert forall|a: int, b: int| 0 <= a < b < principals(n0).len() implies principals(n0)[a] != principals(n0)[b] by {
                        let a2 = if a < i { a } else { a + 1 };
                        let b2 = if b < i { b } else { b + 1 };
                        assert(principals(n0)[a] == pp[a2]);
                        assert(principals(n0)[b] == pp[b2]);
                    }
                    assert(pp.contains(pp[i]));
                    assert forall|a: int, b: int| 0 <= a < b < principals(n1).len() implies principals(n1)[a] != principals(n1)[b] by {
                        if b == principals(n1).len() - 1 {
                            assert(principals(p.1).contains(principals(n1)[a]));
                        }
                    }
                    assert forall|q: Seq<char>| principals(n0).contains(q) implies !principals(n1).contains(q) by {
                        let a = choose|a: int| 0 <= a < principals(n0).len() && principals(n0)[a] == q;
                        let a2 = if a < i { a } else { a + 1 };
                        assert(pp[a2] == q);
                        assert(pp.contains(q));
                        if principals(n1).contains(q) {
                            let b = choose|b: int| 0 <= b < principals(n1).len() && principals(n1)[b] == q;
                            if b < principals(p.1).len() {
                                assert(principals(p.1)[b] == q);
                            } else {
                                assert(pp[i] == q);
                            }
                        }
                    }
                }
            },
            Err(_) => {},
        }
    }
}

proof fn lemma_concat_distinct(p1: Seq<Node>, rem: Seq<Node>, nodes: Seq<Node>)
    requires
        principals(p1).no_duplicates(),
        forall|q: Seq<char>| principals(nodes).contains(q) ==> !principals(p1).contains(q),
        principals(rem).no_duplicates(),
        forall|j: int| 0 <= j < rem.len() ==> principals(nodes).contains(#[trigger] principals(rem)[j]),
    ensures
        principals(p1 + rem).no_duplicates(),
{
    let pr = principals(p1 + rem);
    assert(pr =~= principals(p1) + principals(rem));
    assert forall|a: int, b: int| 0 <= a < b < pr.len() implies pr[a] != pr[b] by {
        let l = principals(p1).len();
        if b >= l && a < l {
            assert(principals(p1).contains(pr[a]));
            assert(principals(rem)[b - l] == pr[b]);
            assert(principals(nodes).contains(principals(rem)[b - l]));
        } else if a >= l {
            assert(principals(rem)[a - l] == pr[a]);
            assert(principals(rem)[b - l] == pr[b]);
        }
    }
}

proof fn lemma_after_removal_counts(
    req2: SubnetChangeRequest,
    old: Seq<Node>,
    add: nat,
    rem: Seq<Node>,
    healths: Seq<(String, HealthStatus)>,
    cf: Seq<CordonedFeature>,
    all: Seq<Node>,
    c: SubnetChange,
)
    requires
        resize_after_removal(req2, old, add, rem, healths, cf, all, Ok(c)),
        req2.nodes_to_remove@.len() == 0,
        req2.include_nodes@.len() == 0,
        req2.subnet.added_nodes@.len() == 0,
        principals(req2.subnet.removed_nodes@).no_duplicates(),
        forall|q: Seq<char>| principals(req2.subnet.nodes@).contains(q) ==> !principals(req2.subnet.removed_nodes@).contains(q),
        principals(rem).no_duplicates(),
        forall|j: int| 0 <= j < rem.len() ==> principals(req2.subnet.nodes@).contains(#[trigger] principals(rem)[j]),
        rem.len() + req2.subnet.removed_nodes@.len() == add,
    ensures
        c.added_nodes@.len() == c.removed_nodes@.len(),
{
    let x = remaining(req2.subnet.nodes@, rem) + req2.include_nodes@;
    assert(req2.nodes_to_remove@ =~= Seq::<Node>::empty());
    assert(remove_each(x, req2.nodes_to_remove@) == Ok::<(Seq<Node>, Seq<Node>), Seq<char>>((x, Seq::empty())));
    let added = c.new_nodes@.skip(x.len() as int);
    let p1 = req2.subnet.removed_nodes@;
    let removed = p1 + rem + Seq::<Node>::empty();
    let all_added = req2.subnet.added_nodes@ + req2.include_nodes@ + added;
    assert(all_added =~= added);
    assert(removed =~= p1 + rem);
    lemma_concat_distinct(p1, rem, req2.subnet.nodes@);
    lemma_without_each_other_len(all_added, removed);
}

proof fn lemma_attempt_counts(
    sub: DecentralizedSubnet,
    available: Seq<Node>,
    k: nat,
    repl: Seq<Node>,
    healths: Seq<(String, HealthStatus)>,
    cf: Seq<CordonedFeature>,
    all: Seq<Node>,
    c: SubnetChange,
)
    requires
        heal_attempt(sub, available, k, repl, healths, cf, all, Ok(c)),
        sub.added_nodes@.len() == 0,
        sub.removed_nodes@.len() == 0,
        principals(sub.nodes@).no_duplicates(),
    ensures
        c.added_nodes@.len() == c.removed_nodes@.len(),
{
    let out: Result<SubnetChange, NetworkError> = Ok(c);
    let req = choose|req: SubnetChangeRequest| #[trigger] heal_request(req, sub, available) && optimize_outcome(req, k, repl, healths, cf, all, out);
    lemma_remove_each_distinct(req.subnet.nodes@, repl);
    crate::network::lemma_remove_each_added_len(req.subnet.nodes@, repl);
    match remove_each(req.subnet.nodes@, repl) {
        Err(_) => {},
        Ok(p) => {
            let s = choose|s: DecentralizedSubnet|
                #[trigger] subnet_without(req.subnet, repl, s) && resize_outcome(
                    SubnetChangeRequest { subnet: s, ..req },
                    req.subnet.nodes@,
                    k + repl.len(),
                    k,
                    healths,
                    cf,
                    all,
                    out,
                );
            let req2 = SubnetChangeRequest { subnet: s, ..req };
            assert(s.removed_nodes@ =~= p.1);
            if k <= principals(req2.subnet.nodes@).to_set().len() {
                let rem = choose|rem: Seq<Node>|
                    removal_choice(req2.subnet.id@, req2.subnet.nodes@, all, rem, k) && #[trigger] resize_after_removal(
                        req2,
                        req.subnet.nodes@,
                        k + repl.len(),
                        rem,
                        healths,
                        cf,
                        all,
                        out,
                    );
                lemma_after_removal_counts(req2, req.subnet.nodes@, k + repl.len(), rem, healths, cf, all, c);
            }
        },
    }
}

/// When the nodes of a subnet have distinct principals, the healing of one step of a heal adds
/// as many nodes as it removes: the subnet keeps its size.
pub proof fn lemma_heal_step_keeps_size(
    subnets: Seq<(String, DecentralizedSubnet)>,
    healths: Seq<(String, HealthStatus)>,
    cf: Seq<CordonedFeature>,
    all: Seq<Node>,
    e: PlanEntry,
    available: Seq<Node>,
    cs: Seq<SubnetChangeResponse>,
    x: SubnetHealing,
    next: Seq<Node>,
)
    requires
        heal_step(subnets, healths, cf, all, e, available, cs, Some(x), next),
        principals(subnets[e.0 as int].1.nodes@).no_duplicates(),
    ensures
        x.change.node_ids_added@.len() == x.change.node_ids_removed@.len(),
{
    let (sub, rn, j, c) = lemma_heal_step_source(subnets, healths, cf, all, e, available, cs, x, next);
    lemma_attempt_counts(sub, available, j as nat, rn, healths, cf, all, c);
    assert(texts(x.change.node_ids_added@).len() == x.change.node_ids_added@.len());
    assert(texts(x.change.node_ids_removed@).len() == x.change.node_ids_removed@.len());
}

/// The nodes that the healing of one step of a heal adds are available, healthy and not
/// cordoned: the added principals are those of such nodes, one for one.
pub proof fn lemma_heal_step_adds_usable_spares(
    subnets: Seq<(String, DecentralizedSubnet)>,
    healths: Seq<(String, HealthStatus)>,
    cf: Seq<CordonedFeature>,
    all: Seq<Node>,
    e: PlanEntry,
    available: Seq<Node>,
    cs: Seq<SubnetChangeResponse>,
    x: SubnetHealing,
    next: Seq<Node>,
)
    requires
        heal_step(subnets, healths, cf, all, e, available, cs, Some(x), next),
    ensures
        exists|spares: Seq<Node>|
            #[trigger] principals(spares) == texts(x.change.node_ids_added@) && forall|i: int|
                0 <= i < spares.len() ==> usable_spare(available, healths, cf, #[trigger] spares[i]),
{
    let (sub, rn, j, c) = lemma_heal_step_source(subnets, healths, cf, all, e, available, cs, x, next);
    lemma_spares_usable(sub, available, j as nat, rn, healths, cf, all, c);
    assert(principals(c.added_nodes@) == texts(x.change.node_ids_added@));
}

proof fn lemma_spares_usable(
    sub: DecentralizedSubnet,
    available: Seq<Node>,
    k: nat,
    repl: Seq<Node>,
    healths: Seq<(String, HealthStatus)>,
    cf: Seq<CordonedFeature>,
    all: Seq<Node>,
    c: SubnetChange,
)
    requires
        heal_attempt(sub, available, k, repl, healths, cf, all, Ok(c)),
        sub.added_nodes@.len() == 0,
    ensures
        forall|i: int| 0 <= i < c.added_nodes@.len() ==> usable_spare(available, healths, cf, #[trigger] c.added_nodes@[i]),
{
    assert forall|i: int| 0 <= i < c.added_nodes@.len() implies usable_spare(available, healths, cf, #[trigger] c.added_nodes@[i]) by {
        lemma_attempt_adds(sub, available, k, repl, healths, cf, all, c, i);
    }
}

proof fn lemma_avails_shrink(
    subnets: Seq<(String, DecentralizedSubnet)>,
    healths: Seq<(String, HealthStatus)>,
    cf: Seq<CordonedFeature>,
    all: Seq<Node>,
    plan: Seq<PlanEntry>,
    available: Seq<Node>,
    css: Seq<Seq<SubnetChangeResponse>>,
    picks: Seq<Option<SubnetHealing>>,
    avails: Seq<Seq<Node>>,
    j: int,
    n: Node,
)
    requires
        heal_trace(subnets, healths, cf, all, plan, available, css, picks, avails),
        0 <= j <= plan.len(),
        avails[j].contains(n),
    ensures
        available.contains(n),
    decreases j,
{
    if j > 0 {
        let k = j - 1;
        assert(0 <= k < plan.len());
        assert(heal_step(subnets, healths, cf, all, plan[k], avails[k], css[k], picks[k], avails[k + 1]));
        assert(k + 1 == j);
        match picks[j - 1] {
            Some(x) => {
                let ids = texts(x.change.node_ids_added@);
                avails[j - 1].lemma_filter_contains_rev(|m: Node| !ids.contains(m.principal@), n);
            },
            None => {},
        }
        lemma_avails_shrink(subnets, healths, cf, all, plan, available, css, picks, avails, j - 1, n);
    }
}

/// Every healing of a heal adds only nodes that were available, healthy and not cordoned: its
/// added principals are those of such nodes, one for one.
pub proof fn lemma_heal_adds_usable_spares(
    subnets: Seq<(String, DecentralizedSubnet)>,
    healths: Seq<(String, HealthStatus)>,
    cf: Seq<CordonedFeature>,
    all: Seq<Node>,
    plan: Seq<PlanEntry>,
    available: Seq<Node>,
    css: Seq<Seq<SubnetChangeResponse>>,
    picks: Seq<Option<SubnetHealing>>,
    avails: Seq<Seq<Node>>,
    i: int,
)
    requires
        heal_trace(subnets, healths, cf, all, plan, available, css, picks, avails),
        0 <= i < chosen_healings(picks).len(),
    ensures
        exists|spares: Seq<Node>|
            #[trigger] principals(spares) == texts(chosen_healings(picks)[i].change.node_ids_added@) && forall|k: int|
                0 <= k < spares.len() ==> usable_spare(available, healths, cf, #[trigger] spares[k]),
{
    let x = chosen_healings(picks)[i];
    lemma_chosen_healing_source(picks, i);
    let j = choose|j: int| 0 <= j < picks.len() && #[trigger] picks[j] == Some(chosen_healings(picks)[i]);
    assert(heal_step(subnets, healths, cf, all, plan[j], avails[j], css[j], picks[j], avails[j + 1]));
    lemma_heal_step_adds_usable_spares(subnets, healths, cf, all, plan[j], avails[j], css[j], x, avails[j + 1]);
    let spares = choose|spares: Seq<Node>|
        #[trigger] principals(spares) == texts(x.change.node_ids_added@) && forall|k: int|
            0 <= k < spares.len() ==> usable_spare(avails[j], healths, cf, #[trigger] spares[k]);
    assert forall|k: int| 0 <= k < spares.len() implies usable_spare(available, healths, cf, #[trigger] spares[k]) by {
        assert(usable_spare(avails[j], healths, cf, spares[k]));
        lemma_avails_shrink(subnets, healths, cf, all, plan, available, css, picks, avails, j, spares[k]);
    }
}

/// Every healing of a heal removes (by principal) each node of its subnet's nodes to replace
/// that is not healthy (see [`lemma_unhealthy_are_replaced`] for when all unhealthy nodes are
/// among them).
pub proof fn lemma_heal_replaces_unhealthy(
    subnets: Seq<(String, DecentralizedSubnet)>,
    healths: Seq<(String, HealthStatus)>,
    cf: Seq<CordonedFeature>,
    all: Seq<Node>,
    plan: Seq<PlanEntry>,
    available: Seq<Node>,
    css: Seq<Seq<SubnetChangeResponse>>,
    picks: Seq<Option<SubnetHealing>>,
    avails: Seq<Seq<Node>>,
    i: int,
)
    requires
        heal_trace(subnets, healths, cf, all, plan, available, css, picks, avails),
        0 <= i < chosen_healings(picks).len(),
    ensures
        exists|j: int|
            0 <= j < plan.len() && #[trigger] picks[j] == Some(chosen_healings(picks)[i]) && forall|q: Seq<char>|
                #![trigger principals(replaced_nodes(nodes_to_replace(entry_view(subnets, healths, cf, plan[j]).0.len() as int, entry_view(subnets, healths, cf, plan[j]).1, entry_view(subnets, healths, cf, plan[j]).2))).contains(q)]
                principals(
                    replaced_nodes(
                        nodes_to_replace(
                            entry_view(subnets, healths, cf, plan[j]).0.len() as int,
                            entry_view(subnets, healths, cf, plan[j]).1,
                            entry_view(subnets, healths, cf, plan[j]).2,
                        ),
                    ),
                ).contains(q) && health_of(healths, q) != HealthStatus::Healthy ==> texts(
                    chosen_healings(picks)[i].change.node_ids_removed@,
                ).contains(q),
{
    let x = chosen_healings(picks)[i];
    lemma_chosen_healing_source(picks, i);
    let j = choose|j: int| 0 <= j < picks.len() && #[trigger] picks[j] == Some(chosen_healings(picks)[i]);
    assert(heal_step(subnets, healths, cf, all, plan[j], avails[j], css[j], picks[j], avails[j + 1]));
    let v = entry_view(subnets, healths, cf, plan[j]);
    assert forall|q: Seq<char>|
        #![trigger principals(replaced_nodes(nodes_to_replace(v.0.len() as int, v.1, v.2))).contains(q)]
        principals(replaced_nodes(nodes_to_replace(v.0.len() as int, v.1, v.2))).contains(q) && health_of(healths, q)
            != HealthStatus::Healthy implies texts(x.change.node_ids_removed@).contains(q) by {
        lemma_heal_step_replaces_unhealthy(subnets, healths, cf, all, plan[j], avails[j], css[j], x, avails[j + 1], q);
    }
}

/// No healing of a heal both adds and removes the same principal.
pub proof fn lemma_heal_added_not_removed(
    subnets: Seq<(String, DecentralizedSubnet)>,
    healths: Seq<(String, HealthStatus)>,
    cf: Seq<CordonedFeature>,
    all: Seq<Node>,
    plan: Seq<PlanEntry>,
    available: Seq<Node>,
    css: Seq<Seq<SubnetChangeResponse>>,
    picks: Seq<Option<SubnetHealing>>,
    avails: Seq<Seq<Node>>,
    i: int,
    q: Seq<char>,
)
    requires
        heal_trace(subnets, healths, cf, all, plan, available, css, picks, avails),
        0 <= i < chosen_healings(picks).len(),
    ensures
        !(texts(chosen_healings(picks)[i].change.node_ids_added@).contains(q) && texts(
            chosen_healings(picks)[i].change.node_ids_removed@,
        ).contains(q)),
{
    let x = chosen_healings(picks)[i];
    lemma_chosen_healing_source(picks, i);
    let j = choose|j: int| 0 <= j < picks.len() && #[trigger] picks[j] == Some(chosen_healings(picks)[i]);
    assert(heal_step(subnets, healths, cf, all, plan[j], avails[j], css[j], picks[j], avails[j + 1]));
    lemma_heal_step_added_not_removed(subnets, healths, cf, all, plan[j], avails[j], css[j], x, avails[j + 1], q);
}

proof fn lemma_avails_leave_out(
    subnets: Seq<(String, DecentralizedSubnet)>,
    healths: Seq<(String, HealthStatus)>,
    cf: Seq<CordonedFeature>,
    all: Seq<Node>,
    plan: Seq<PlanEntry>,
    available: Seq<Node>,
    css: Seq<Seq<SubnetChangeResponse>>,
    picks: Seq<Option<SubnetHealing>>,
    avails: Seq<Seq<Node>>,
    j: int,
    j2: int,
    n: Node,
    x: SubnetHealing,
)
    requires
        heal_trace(subnets, healths, cf, all, plan, available, css, picks, avails),
        0 <= j < j2 <= plan.len(),
        avails[j2].contains(n),
        picks[j] == Some(x),
    ensures
        !texts(x.change.node_ids_added@).contains(n.principal@),
    decreases j2,
{
    broadcast use vstd::seq_lib::group_filter_ensures;
    let k = j2 - 1;
    assert(heal_step(subnets, healths, cf, all, plan[k], avails[k], css[k], picks[k], avails[k + 1]));
    assert(k + 1 == j2);
    if k == j {
        let ids = texts(x.change.node_ids_added@);
        let pred = |m: Node| !ids.contains(m.principal@);
        let w = choose|w: int| 0 <= w < avails[j2].len() && avails[j2][w] == n;
        assert(avails[j2] == avails[k].filter(pred));
        assert(pred(avails[j2][w]));
    } else {
        match picks[k] {
            Some(y) => {
                let ids = texts(y.change.node_ids_added@);
                avails[k].lemma_filter_contains_rev(|m: Node| !ids.contains(m.principal@), n);
            },
            None => {},
        }
        lemma_avails_leave_out(subnets, healths, cf, all, plan, available, css, picks, avails, j, k, n, x);
    }
}

/// No two healings of a heal add the same principal: each spare node is used at most once.
pub proof fn lemma_heal_spares_used_once(
    subnets: Seq<(String, DecentralizedSubnet)>,
    healths: Seq<(String, HealthStatus)>,
    cf: Seq<CordonedFeature>,
    all: Seq<Node>,
    plan: Seq<PlanEntry>,
    available: Seq<Node>,
    css: Seq<Seq<SubnetChangeResponse>>,
    picks: Seq<Option<SubnetHealing>>,
    avails: Seq<Seq<Node>>,
    i1: int,
    i2: int,
    q: Seq<char>,
)
    requires
        heal_trace(subnets, healths, cf, all, plan, available, css, picks, avails),
        0 <= i1 < i2 < chosen_healings(picks).len(),
    ensures
        !(texts(chosen_healings(picks)[i1].change.node_ids_added@).contains(q) && texts(
            chosen_healings(picks)[i2].change.node_ids_added@,
        ).contains(q)),
{
    let x1 = chosen_healings(picks)[i1];
    let x2 = chosen_healings(picks)[i2];
    lemma_chosen_healing_order(picks, i1, i2);
    let (j1, j2) = choose|j1: int, j2: int|
        0 <= j1 < j2 < picks.len() && #[trigger] picks[j1] == Some(chosen_healings(picks)[i1]) && #[trigger] picks[j2]
            == Some(chosen_healings(picks)[i2]);
    assert(heal_step(subnets, healths, cf, all, plan[j2], avails[j2], css[j2], picks[j2], avails[j2 + 1]));
    lemma_heal_step_adds_usable_spares(subnets, healths, cf, all, plan[j2], avails[j2], css[j2], x2, avails[j2 + 1]);
    let spares = choose|spares: Seq<Node>|
        #[trigger] principals(spares) == texts(x2.change.node_ids_added@) && forall|k: int|
            0 <= k < spares.len() ==> usable_spare(avails[j2], healths, cf, #[trigger] spares[k]);
    if texts(x2.change.node_ids_added@).contains(q) {
        let k = choose|k: int| 0 <= k < principals(spares).len() && principals(spares)[k] == q;
        assert(usable_spare(avails[j2], healths, cf, spares[k]));
        lemma_avails_leave_out(subnets, healths, cf, all, plan, available, css, picks, avails, j1, j2, spares[k], x1);
    }
}

/// No two entries of the plan are for the same subnet.
pub open spec fn distinct_entries(p: Seq<PlanEntry>) -> bool {
    forall|i: int, j: int| 0 <= i < j < p.len() ==> (#[trigger] p[i]).0 != (#[trigger] p[j]).0
}

proof fn lemma_entry_pos_absent(p: Seq<PlanEntry>, i: usize)
    requires
        entry_pos(p, i) < 0,
    ensures
        forall|k: int| 0 <= k < p.len() ==> (#[trigger] p[k]).0 != i,
    decreases p.len(),
{
    if p.len() > 0 {
        lemma_entry_pos_absent(p.drop_last(), i);
        assert forall|k: int| 0 <= k < p.len() implies (#[trigger] p[k]).0 != i by {
            if k < p.len() - 1 {
                assert(p[k] == p.drop_last()[k]);
            }
        }
    }
}

proof fn lemma_push_distinct(p: Seq<PlanEntry>, x: PlanEntry)
    requires
        distinct_entries(p),
        forall|k: int| 0 <= k < p.len() ==> (#[trigger] p[k]).0 != x.0,
    ensures
        distinct_entries(p.push(x)),
{
    assert forall|i: int, j: int| 0 <= i < j < p.push(x).len() implies (#[trigger] p.push(x)[i]).0 != (#[trigger] p.push(x)[j]).0 by {
        if j < p.len() {
            assert(p.push(x)[i] == p[i] && p.push(x)[j] == p[j]);
        } else {
            assert(p.push(x)[i] == p[i]);
        }
    }
}

proof fn lemma_unhealthy_plan_distinct(subnets: Seq<(String, DecentralizedSubnet)>, healths: Seq<(String, HealthStatus)>, n: int)
    requires
        n <= usize::MAX,
    ensures
        distinct_entries(unhealthy_plan(subnets, healths, n)),
        forall|k: int| 0 <= k < unhealthy_plan(subnets, healths, n).len() ==> (#[trigger] unhealthy_plan(subnets, healths, n)[k]).0 < n,
    decreases n,
{
    if n > 0 {
        lemma_unhealthy_plan_distinct(subnets, healths, n - 1);
        let r = unhealthy_plan(subnets, healths, n - 1);
        if unhealthy_nodes(healths, subnets[n - 1].1.nodes@).len() > 0 {
            lemma_push_distinct(r, ((n - 1) as usize, true, false));
        }
        assert forall|k: int| 0 <= k < unhealthy_plan(subnets, healths, n).len() implies (#[trigger] unhealthy_plan(subnets, healths, n)[k]).0 < n by {
            if k < r.len() {
                assert(unhealthy_plan(subnets, healths, n)[k] == r[k]);
            }
        }
    }
}

proof fn lemma_cordoned_plan_distinct(subnets: Seq<(String, DecentralizedSubnet)>, cf: Seq<CordonedFeature>, n: int)
    requires
        n <= usize::MAX,
    ensures
        distinct_entries(cordoned_plan(subnets, cf, n)),
        forall|k: int| 0 <= k < cordoned_plan(subnets, cf, n).len() ==> (#[trigger] cordoned_plan(subnets, cf, n)[k]).0 < n,
    decreases n,
{
    if n > 0 {
        lemma_cordoned_plan_distinct(subnets, cf, n - 1);
        let r = cordoned_plan(subnets, cf, n - 1);
        if cordoned_in(subnets[n - 1].1.nodes@, cf).len() > 0 {
            lemma_push_distinct(r, ((n - 1) as usize, false, true));
        }
        assert forall|k: int| 0 <= k < cordoned_plan(subnets, cf, n).len() implies (#[trigger] cordoned_plan(subnets, cf, n)[k]).0 < n by {
            if k < r.len() {
                assert(cordoned_plan(subnets, cf, n)[k] == r[k]);
            }
        }
    }
}

proof fn lemma_sort_plan_distinct(subnets: Seq<(String, DecentralizedSubnet)>, p: Seq<PlanEntry>)
    requires
        distinct_entries(p),
    ensures
        distinct_entries(sort_plan(subnets, p)),
    decreases p.len(),
{
    if p.len() > 0 {
        let d = p.drop_last();
        assert(distinct_entries(d)) by {
            assert forall|i: int, j: int| 0 <= i < j < d.len() implies (#[trigger] d[i]).0 != (#[trigger] d[j]).0 by {
                assert(d[i] == p[i] && d[j] == p[j]);
            }
        }
        lemma_sort_plan_distinct(subnets, d);
        lemma_sort_plan_len(subnets, d);
        let o = sort_plan(subnets, d);
        let x = p.last();
        let q = plan_pos(subnets, o, x, o.len() as int);
        lemma_plan_pos_bounds(subnets, o, x, o.len() as int);
        assert forall|k: int| 0 <= k < o.len() implies (#[trigger] o[k]).0 != x.0 by {
            let j = choose|j: int| 0 <= j < d.len() && #[trigger] sort_plan(subnets, d)[k] == d[j];
            assert(d[j] == p[j]);
            assert(p[p.len() - 1] == x);
        }
        let t = o.insert(q, x);
        assert(sort_plan(subnets, p) == t);
        assert forall|i: int, j: int| 0 <= i < j < t.len() implies (#[trigger] t[i]).0 != (#[trigger] t[j]).0 by {
            if j < q {
                assert(t[i] == o[i] && t[j] == o[j]);
            } else if j == q {
                assert(t[i] == o[i]);
            } else if i < q {
                assert(t[i] == o[i] && t[j] == o[j - 1]);
            } else if i == q {
                assert(t[j] == o[j - 1]);
            } else {
                assert(t[i] == o[i - 1] && t[j] == o[j - 1]);
            }
        }
    }
}

proof fn lemma_merge_plan_distinct(p: Seq<PlanEntry>, c: Seq<PlanEntry>)
    requires
        distinct_entries(p),
    ensures
        distinct_entries(merge_plan(p, c)),
    decreases c.len(),
{
    if c.len() > 0 {
        lemma_merge_plan_distinct(p, c.drop_last());
        let q = merge_plan(p, c.drop_last());
        let k = entry_pos(q, c.last().0);
        lemma_entry_pos_bounds(q, c.last().0);
        if k >= 0 {
            let u = q.update(k, (q[k].0, q[k].1, true));
            assert forall|i: int, j: int| 0 <= i < j < u.len() implies (#[trigger] u[i]).0 != (#[trigger] u[j]).0 by {
                assert(u[i].0 == q[i].0 && u[j].0 == q[j].0);
            }
        } else {
            lemma_entry_pos_absent(q, c.last().0);
            lemma_push_distinct(q, c.last());
        }
    }
}

proof fn lemma_add_violating_distinct(p: Seq<PlanEntry>, subnets: Seq<(String, DecentralizedSubnet)>, n: int)
    requires
        distinct_entries(p),
    ensures
        distinct_entries(add_violating(p, subnets, n)),
    decreases n,
{
    if n > 0 {
        lemma_add_violating_distinct(p, subnets, n - 1);
        let q = add_violating(p, subnets, n - 1);
        if is_violating(subnets, n - 1) && entry_pos(q, (n - 1) as usize) < 0 {
            lemma_entry_pos_absent(q, (n - 1) as usize);
            lemma_push_distinct(q, ((n - 1) as usize, false, false));
        }
    }
}

proof fn lemma_keep_plan_distinct(p: Seq<PlanEntry>, subnets: Seq<(String, DecentralizedSubnet)>, optimize: bool)
    requires
        distinct_entries(p),
    ensures
        distinct_entries(keep_plan(p, subnets, optimize)),
    decreases p.len(),
{
    if p.len() > 0 {
        let d = p.drop_last();
        assert(distinct_entries(d)) by {
            assert forall|i: int, j: int| 0 <= i < j < d.len() implies (#[trigger] d[i]).0 != (#[trigger] d[j]).0 by {
                assert(d[i] == p[i] && d[j] == p[j]);
            }
        }
        lemma_keep_plan_distinct(d, subnets, optimize);
        lemma_keep_plan_kept(d, subnets, optimize);
        let r = keep_plan(d, subnets, optimize);
        let e = p.last();
        if e.2 || (optimize && is_violating(subnets, e.0 as int)) {
            assert forall|k: int| 0 <= k < r.len() implies (#[trigger] r[k]).0 != e.0 by {
                assert(d.contains(r[k]));
                let j = choose|j: int| 0 <= j < d.len() && d[j] == r[k];
                assert(d[j] == p[j]);
                assert(p[p.len() - 1] == e);
            }
            lemma_push_distinct(r, e);
        }
    }
}

/// No two entries of a plan are for the same subnet.
pub proof fn lemma_fix_plan_distinct(
    subnets: Seq<(String, DecentralizedSubnet)>,
    healths: Seq<(String, HealthStatus)>,
    cf: Seq<CordonedFeature>,
    remove_cordoned: bool,
    optimize: bool,
    heal: bool,
)
    requires
        subnets.len() <= usize::MAX,
    ensures
        distinct_entries(fix_plan(subnets, healths, cf, remove_cordoned, optimize, heal)),
{
    let n = subnets.len() as int;
    lemma_unhealthy_plan_distinct(subnets, healths, n);
    lemma_sort_plan_distinct(subnets, unhealthy_plan(subnets, healths, n));
    let p1 = sort_plan(subnets, unhealthy_plan(subnets, healths, n));
    let p2 = if remove_cordoned {
        merge_plan(p1, sort_plan(subnets, cordoned_plan(subnets, cf, n)))
    } else {
        p1
    };
    if remove_cordoned {
        lemma_merge_plan_distinct(p1, sort_plan(subnets, cordoned_plan(subnets, cf, n)));
    }
    let p3 = if optimize {
        add_violating(p2, subnets, n)
    } else {
        p2
    };
    if optimize {
        lemma_add_violating_distinct(p2, subnets, n);
    }
    let p4 = if heal {
        p3
    } else {
        keep_plan(p3, subnets, optimize)
    };
    if !heal {
        lemma_keep_plan_distinct(p3, subnets, optimize);
    }
    lemma_sort_plan_distinct(subnets, p4);
    assert(fix_plan(subnets, healths, cf, remove_cordoned, optimize, heal) == sort_plan(subnets, p4));
}

/// Two healings of a heal are for different subnets.
pub proof fn lemma_heal_subnets_distinct(
    subnets: Seq<(String, DecentralizedSubnet)>,
    healths: Seq<(String, HealthStatus)>,
    cf: Seq<CordonedFeature>,
    all: Seq<Node>,
    remove_cordoned: bool,
    optimize: bool,
    heal: bool,
    available: Seq<Node>,
    css: Seq<Seq<SubnetChangeResponse>>,
    picks: Seq<Option<SubnetHealing>>,
    avails: Seq<Seq<Node>>,
    i1: int,
    i2: int,
)
    requires
        heal_trace(
            subnets,
            healths,
            cf,
            all,
            fix_plan(subnets, healths, cf, remove_cordoned, optimize, heal),
            available,
            css,
            picks,
            avails,
        ),
        0 <= i1 < i2 < chosen_healings(picks).len(),
        subnets.len() <= usize::MAX,
    ensures
        exists|j1: int, j2: int|
            0 <= j1 < j2 < picks.len() && #[trigger] picks[j1] == Some(chosen_healings(picks)[i1]) && #[trigger] picks[j2]
                == Some(chosen_healings(picks)[i2]) && fix_plan(subnets, healths, cf, remove_cordoned, optimize, heal)[j1].0
                != fix_plan(subnets, healths, cf, remove_cordoned, optimize, heal)[j2].0,
{
    let plan = fix_plan(subnets, healths, cf, remove_cordoned, optimize, heal);
    lemma_fix_plan_distinct(subnets, healths, cf, remove_cordoned, optimize, heal);
    lemma_chosen_healing_order(picks, i1, i2);
    let (j1, j2) = choose|j1: int, j2: int|
        0 <= j1 < j2 < picks.len() && #[trigger] picks[j1] == Some(chosen_healings(picks)[i1]) && #[trigger] picks[j2]
            == Some(chosen_healings(picks)[i2]);
    assert(plan[j1].0 != plan[j2].0);
}

/// When the nodes of each subnet have distinct principals, every healing of a heal adds as many
/// nodes as it removes: the subnet keeps its size.
pub proof fn lemma_heal_keeps_sizes(
    subnets: Seq<(String, DecentralizedSubnet)>,
    healths: Seq<(String, HealthStatus)>,
    cf: Seq<CordonedFeature>,
    all: Seq<Node>,
    plan: Seq<PlanEntry>,
    available: Seq<Node>,
    css: Seq<Seq<SubnetChangeResponse>>,
    picks: Seq<Option<SubnetHealing>>,
    avails: Seq<Seq<Node>>,
    i: int,
)
    requires
        heal_trace(subnets, healths, cf, all, plan, available, css, picks, avails),
        0 <= i < chosen_healings(picks).len(),
        forall|s: int| 0 <= s < subnets.len() ==> principals((#[trigger] subnets[s]).1.nodes@).no_duplicates(),
        entries_in(plan, subnets.len() as int),
    ensures
        chosen_healings(picks)[i].change.node_ids_added@.len() == chosen_healings(picks)[i].change.node_ids_removed@.len(),
{
    let x = chosen_healings(picks)[i];
    lemma_chosen_healing_source(picks, i);
    let j = choose|j: int| 0 <= j < picks.len() && #[trigger] picks[j] == Some(chosen_healings(picks)[i]);
    assert(heal_step(subnets, healths, cf, all, plan[j], avails[j], css[j], picks[j], avails[j + 1]));
    assert(plan[j].0 < subnets.len());
    assert(principals(subnets[plan[j].0 as int].1.nodes@).no_duplicates());
    lemma_heal_step_keeps_size(subnets, healths, cf, all, plan[j], avails[j], css[j], x, avails[j + 1]);
}

/// A request to heal and optimize the subnets `subnets`, each with its name.
#[derive(Debug, Clone)]
pub struct NetworkHealRequest {
    pub subnets: Vec<(String, DecentralizedSubnet)>,
}

impl NetworkHealRequest {
    /// A request for the subnets `subnets`, each with its name.
    pub fn new(subnets: Vec<(String, DecentralizedSubnet)>) -> (r: Self)
        ensures
            r.subnets == subnets,
    {
        NetworkHealRequest { subnets }
    }

    /// Heals and optimizes the subnets in the order of [`fix_plan`]: for each, the nodes to
    /// replace ([`nodes_to_replace`]), the candidate changes ([`candidate_changes`]) from the
    /// nodes still available, and the change chosen among them ([`pick_healing`]); the nodes
    /// that a chosen change adds are no longer available to the subnets after it.
    pub fn fix_and_optimize(
        &self,
        available_nodes: Vec<Node>,
        health_of_nodes: &Vec<(String, HealthStatus)>,
        cordoned_features: Vec<CordonedFeature>,
        all_nodes: &Vec<Node>,
        optimize_for_business_rules_compliance: bool,
        remove_cordoned_nodes: bool,
        heal: bool,
    ) -> (r: Vec<SubnetHealing>)
        requires
            forall|i: int| 0 <= i < self.subnets@.len() ==> healable_size((#[trigger] self.subnets@[i]).1.nodes@.len() as int),
        ensures
            r@.len() <= fix_plan(
                self.subnets@,
                health_of_nodes@,
                cordoned_features@,
                remove_cordoned_nodes,
                optimize_for_business_rules_compliance,
                heal,
            ).len(),
            forall|i: int|
                0 <= i < r@.len() ==> #[trigger] healed_from(
                    r@[i],
                    self.subnets@,
                    health_of_nodes@,
                    cordoned_features@,
                    fix_plan(
                        self.subnets@,
                        health_of_nodes@,
                        cordoned_features@,
                        remove_cordoned_nodes,
                        optimize_for_business_rules_compliance,
                        heal,
                    ),
                ),
            exists|css: Seq<Seq<SubnetChangeResponse>>, picks: Seq<Option<SubnetHealing>>, avails: Seq<Seq<Node>>|
                #[trigger] heal_trace(
                    self.subnets@,
                    health_of_nodes@,
                    cordoned_features@,
                    all_nodes@,
                    fix_plan(
                        self.subnets@,
                        health_of_nodes@,
                        cordoned_features@,
                        remove_cordoned_nodes,
                        optimize_for_business_rules_compliance,
                        heal,
                    ),
                    available_nodes@,
                    css,
                    picks,
                    avails,
                ) && r@ == chosen_healings(picks),
    {
        let ghost a0 = available_nodes@;
        assert forall|i: int| 0 <= i < self.subnets@.len() implies (#[trigger] self.subnets@[i]).1.nodes@.len() * 100000 <= usize::MAX by {
            let l = self.subnets@[i].1.nodes@.len() as int;
            assert(healable_size(l));
        }
        let plan = plan_fixes(
            &self.subnets,
            health_of_nodes,
            &cordoned_features,
            remove_cordoned_nodes,
            optimize_for_business_rules_compliance,
            heal,
        );
        let mut available = available_nodes;
        let mut out: Vec<SubnetHealing> = Vec::new();
        let ghost mut css: Seq<Seq<SubnetChangeResponse>> = Seq::empty();
        let ghost mut picks: Seq<Option<SubnetHealing>> = Seq::empty();
        let ghost mut avails: Seq<Seq<Node>> = seq![a0];
        let mut k: usize = 0;
        while k < plan.len()
            invariant
                k <= plan@.len(),
                heal_trace(self.subnets@, health_of_nodes@, cordoned_features@, all_nodes@, plan@.take(k as int), a0, css, picks, avails),
                avails.last() == available@,
                out@ == chosen_healings(picks),
                out@.len() <= k,
                plan@ == fix_plan(
                    self.subnets@,
                    health_of_nodes@,
                    cordoned_features@,
                    remove_cordoned_nodes,
                    optimize_for_business_rules_compliance,
                    heal,
                ),
                entries_in(plan@, self.subnets@.len() as int),
                forall|i: int| 0 <= i < self.subnets@.len() ==> healable_size((#[trigger] self.subnets@[i]).1.nodes@.len() as int),
                forall|i: int|
                    0 <= i < out@.len() ==> #[trigger] healed_from(out@[i], self.subnets@, health_of_nodes@, cordoned_features@, plan@),
            decreases plan.len() - k,
        {
            let e = plan[k];
            assert(plan@[k as int].0 < self.subnets@.len());
            let h = heal_subnet_for(&self.subnets, health_of_nodes, &cordoned_features, e);
            assert(healable_size(self.subnets@[e.0 as int].1.nodes@.len() as int));
            let repl = replacement_nodes(&h);
            let cands = candidate_changes(&h, &repl, &available, health_of_nodes, &cordoned_features, all_nodes);
            let ghost cs = cands@;
            assert forall|i: int| 0 <= i < cs.len() implies (#[trigger] cs[i]).score_after.wf() && cs[i].score_after.bounded() by {
                assert(valid_candidate(cs[i], h.decentralized_subnet.nodes@));
            }
            let picked = pick_healing(&h, &repl, cands, health_of_nodes);
            let ghost old_available = available@;
            let ghost pick = picked;
            proof {
                assert(healing_inputs(h) == entry_view(self.subnets@, health_of_nodes@, cordoned_features@, plan@[k as int]));
            }
            match picked {
                Some(x) => {
                    available = drop_added(&available, &x.change.node_ids_added);
                    let ghost before = out@;
                    out.push(x);
                    proof {
                        assert(out@ == chosen_healings(picks.push(pick))) by {
                            assert(picks.push(pick).drop_last() =~= picks);
                        }
                    }
                    proof {
                        assert(healing_inputs(h) == entry_view(self.subnets@, health_of_nodes@, cordoned_features@, plan@[k as int]));
                        assert(heals_with(out@[out@.len() - 1], self.subnets@, health_of_nodes@, cordoned_features@, plan@, k as int, cs));
                        assert(healed_from(out@[out@.len() - 1], self.subnets@, health_of_nodes@, cordoned_features@, plan@));
                        assert forall|i: int| 0 <= i < out@.len() implies #[trigger] healed_from(out@[i], self.subnets@, health_of_nodes@, cordoned_features@, plan@) by {
                            if i < before.len() {
                                assert(out@[i] == before[i]);
                            }
                        }
                    }
                },
                None => {
                    proof {
                        assert(picks.push(pick).drop_last() =~= picks);
                    }
                },
            }
            proof {
                let e = plan@[k as int];
                assert(heal_step(self.subnets@, health_of_nodes@, cordoned_features@, all_nodes@, e, old_available, cs, pick, available@));
                let t0 = plan@.take(k as int);
                let t1 = plan@.take(k as int + 1);
                let css1 = css.push(cs);
                let picks1 = picks.push(pick);
                let avails1 = avails.push(available@);
                assert forall|j: int| 0 <= j < t1.len() implies #[trigger] heal_step(
                    self.subnets@,
                    health_of_nodes@,
                    cordoned_features@,
                    all_nodes@,
                    t1[j],
                    avails1[j],
                    css1[j],
                    picks1[j],
                    avails1[j + 1],
                ) by {
                    if j < k {
                        assert(t1[j] == t0[j]);
                        assert(heal_step(self.subnets@, health_of_nodes@, cordoned_features@, all_nodes@, t0[j], avails[j], css[j], picks[j], avails[j + 1]));
                    }
                }
                css = css1;
                picks = picks1;
                avails = avails1;
            }
            k = k + 1;
        }
        assert(plan@.take(plan@.len() as int) =~= plan@);
        out
    }
}

/// The smallest of the penalties.
pub open spec fn min_penalty(p: Seq<usize>) -> int
    decreases p.len(),
{
    if p.len() <= 1 {
        p[0] as int
    } else {
        let m = min_penalty(p.drop_last());
        if (p.last() as int) < m {
            p.last() as int
        } else {
            m
        }
    }
}

/// The positions of the changes with penalty `m`, in order.
pub open spec fn with_penalty(p: Seq<usize>, m: int) -> Seq<usize>
    decreases p.len(),
{
    if p.len() == 0 {
        Seq::empty()
    } else {
        let r = with_penalty(p.drop_last(), m);
        if p.last() == m {
            r.push((p.len() - 1) as usize)
        } else {
            r
        }
    }
}

/// The position, among `best`, of the highest score (the last of equally high ones), folding
/// from the first: each next score replaces the one kept unless the one kept is higher.
pub open spec fn max_score_pos(scores: Seq<NakamotoScore>, best: Seq<usize>) -> usize
    decreases best.len(),
{
    if best.len() <= 1 {
        best[0]
    } else {
        let acc = max_score_pos(scores, best.drop_last());
        if score_difference(scores[acc as int], scores[best.last() as int]).0 > 0 {
            acc
        } else {
            best.last()
        }
    }
}

/// The first of `best` whose score equals that at position `target`.
pub open spec fn first_same_score(scores: Seq<NakamotoScore>, best: Seq<usize>, target: usize, j: int) -> int
    decreases best.len() - j,
{
    if j < 0 || j >= best.len() {
        -1
    } else if scores[best[j] as int].same_as(scores[target as int]) {
        j
    } else {
        first_same_score(scores, best, target, j + 1)
    }
}

/// The change to propose among candidate changes with penalties `p` and scores `scores`: among
/// those with the smallest penalty, the first with the highest score when that penalty is below
/// `original`, else the first of them.
pub open spec fn chosen_change(p: Seq<usize>, scores: Seq<NakamotoScore>, original: int) -> usize {
    let m = min_penalty(p);
    let best = with_penalty(p, m);
    if m < original {
        best[first_same_score(scores, best, max_score_pos(scores, best), 0)]
    } else {
        best[0]
    }
}

proof fn lemma_min_penalty(p: Seq<usize>)
    requires
        p.len() > 0,
    ensures
        with_penalty(p, min_penalty(p)).len() > 0,
        forall|j: int| 0 <= j < with_penalty(p, min_penalty(p)).len() ==> #[trigger] with_penalty(p, min_penalty(p))[j] < p.len(),
    decreases p.len(),
{
    lemma_with_penalty_bounds(p, min_penalty(p));
    lemma_min_attained(p);
}

proof fn lemma_with_penalty_bounds(p: Seq<usize>, m: int)
    ensures
        forall|j: int| 0 <= j < with_penalty(p, m).len() ==> #[trigger] with_penalty(p, m)[j] < p.len(),
        with_penalty(p, m).len() <= p.len(),
    decreases p.len(),
{
    if p.len() > 0 {
        lemma_with_penalty_bounds(p.drop_last(), m);
    }
}

proof fn lemma_min_attained(p: Seq<usize>)
    requires
        p.len() > 0,
    ensures
        with_penalty(p, min_penalty(p)).len() > 0,
    decreases p.len(),
{
    if p.len() > 1 {
        let m = min_penalty(p);
        let m0 = min_penalty(p.drop_last());
        if (p.last() as int) < m0 {
        } else {
            lemma_min_attained(p.drop_last());
            lemma_with_penalty_nonempty_mono(p, m0);
        }
    }
}

proof fn lemma_with_penalty_nonempty_mono(p: Seq<usize>, m: int)
    requires
        p.len() > 0,
        with_penalty(p.drop_last(), m).len() > 0,
    ensures
        with_penalty(p, m).len() > 0,
{
}

proof fn lemma_max_score_pos_in(scores: Seq<NakamotoScore>, best: Seq<usize>)
    requires
        best.len() > 0,
    ensures
        best.contains(max_score_pos(scores, best)),
    decreases best.len(),
{
    if best.len() > 1 {
        lemma_max_score_pos_in(scores, best.drop_last());
        let acc = max_score_pos(scores, best.drop_last());
        let k = choose|k: int| 0 <= k < best.drop_last().len() && best.drop_last()[k] == acc;
        assert(best[k] == acc);
        assert(best[best.len() - 1] == best.last());
    } else {
        assert(best[0] == max_score_pos(scores, best));
    }
}

proof fn lemma_first_same_score_found(scores: Seq<NakamotoScore>, best: Seq<usize>, target: usize, j: int)
    requires
        0 <= j,
        exists|k: int| j <= k < best.len() && best[k] == target,
    ensures
        j <= first_same_score(scores, best, target, j) < best.len(),
    decreases best.len() - j,
{
    if !scores[best[j] as int].same_as(scores[target as int]) {
        if best[j] == target {
            assert(scores[target as int].same_as(scores[target as int]));
        }
        lemma_first_same_score_found(scores, best, target, j + 1);
    }
}

proof fn lemma_first_same_score_range(scores: Seq<NakamotoScore>, best: Seq<usize>, target: usize, j: int)
    requires
        0 <= j,
    ensures
        first_same_score(scores, best, target, j) == -1
            || j <= first_same_score(scores, best, target, j) < best.len(),
    decreases best.len() - j,
{
    if j < best.len() && !scores[best[j] as int].same_as(scores[target as int]) {
        lemma_first_same_score_range(scores, best, target, j + 1);
    }
}

/// The penalty after each change.
pub open spec fn penalties_after(cs: Seq<SubnetChangeResponse>) -> Seq<usize> {
    cs.map_values(|c: SubnetChangeResponse| c.penalties_after_change)
}

/// The score after each change.
pub open spec fn scores_after(cs: Seq<SubnetChangeResponse>) -> Seq<NakamotoScore> {
    cs.map_values(|c: SubnetChangeResponse| c.score_after)
}

/// The change to propose (see [`chosen_change`]).
pub fn choose_change(changes: &Vec<SubnetChangeResponse>, original: usize) -> (r: usize)
    requires
        changes@.len() > 0,
        forall|i: int| 0 <= i < changes@.len() ==> (#[trigger] changes@[i]).score_after.wf() && changes@[i].score_after.bounded(),
    ensures
        r == chosen_change(penalties_after(changes@), scores_after(changes@), original as int),
        r < penalties_after(changes@).len(),
{
    let n = changes.len();
    let mut m = changes[0].penalties_after_change;
    let mut i: usize = 1;
    assert(penalties_after(changes@).take(1).len() == 1);
    while i < n
        invariant
            1 <= i <= n,
            n == penalties_after(changes@).len(),
            m as int == min_penalty(penalties_after(changes@).take(i as int)),
        decreases n - i,
    {
        let ghost t = penalties_after(changes@).take(i as int + 1);
        assert(t.drop_last() =~= penalties_after(changes@).take(i as int));
        if changes[i].penalties_after_change < m {
            m = changes[i].penalties_after_change;
        }
        i = i + 1;
    }
    assert(penalties_after(changes@).take(n as int) =~= penalties_after(changes@));
    let mut best: Vec<usize> = Vec::new();
    let mut i: usize = 0;
    assert(penalties_after(changes@).take(0) =~= Seq::<usize>::empty());
    while i < n
        invariant
            i <= n,
            n == penalties_after(changes@).len(),
            best@ == with_penalty(penalties_after(changes@).take(i as int), m as int),
        decreases n - i,
    {
        let ghost t = penalties_after(changes@).take(i as int + 1);
        assert(t.drop_last() =~= penalties_after(changes@).take(i as int));
        if changes[i].penalties_after_change == m {
            best.push(i);
        }
        i = i + 1;
    }
    assert(penalties_after(changes@).take(n as int) =~= penalties_after(changes@));
    proof {
        lemma_min_penalty(penalties_after(changes@));
    }
    if m >= original {
        return best[0];
    }
    let mut acc = best[0];
    let mut j: usize = 1;
    assert(best@.take(1).len() == 1);
    while j < best.len()
        invariant
            1 <= j <= best@.len(),
            forall|k: int| 0 <= k < best@.len() ==> #[trigger] best@[k] < n,
            n == scores_after(changes@).len(),
            forall|i: int| 0 <= i < scores_after(changes@).len() ==> (#[trigger] scores_after(changes@)[i]).wf() && scores_after(changes@)[i].bounded(),
            acc == max_score_pos(scores_after(changes@), best@.take(j as int)),
            acc < n,
        decreases best.len() - j,
    {
        let ghost t = best@.take(j as int + 1);
        assert(t.drop_last() =~= best@.take(j as int));
        assert(t.last() == best@[j as int]);
        assert(scores_after(changes@)[acc as int].bounded() && scores_after(changes@)[best@[j as int] as int].bounded());
        if !changes[acc].score_after.is_better_than(&changes[best[j]].score_after) {
            acc = best[j];
        }
        j = j + 1;
    }
    assert(best@.take(best@.len() as int) =~= best@);
    proof {
        lemma_max_score_pos_in(scores_after(changes@), best@);
        let k = choose|k: int| 0 <= k < best@.len() && best@[k] == acc;
        lemma_first_same_score_found(scores_after(changes@), best@, acc, 0);
    }
    let mut j: usize = 0;
    while j < best.len()
        invariant
            j <= best@.len(),
            forall|k: int| 0 <= k < best@.len() ==> #[trigger] best@[k] < n,
            n == scores_after(changes@).len(),
            forall|i: int| 0 <= i < scores_after(changes@).len() ==> (#[trigger] scores_after(changes@)[i]).wf() && scores_after(changes@)[i].bounded(),
            n == penalties_after(changes@).len(),
            m as int == min_penalty(penalties_after(changes@)),
            best@ == with_penalty(penalties_after(changes@), m as int),
            m < original,
            acc == max_score_pos(scores_after(changes@), best@),
            first_same_score(scores_after(changes@), best@, acc, 0) == first_same_score(scores_after(changes@), best@, acc, j as int),
            j <= first_same_score(scores_after(changes@), best@, acc, 0) < best@.len(),
            acc < n,
        decreases best.len() - j,
    {
        assert(scores_after(changes@)[best@[j as int] as int].wf());
        if changes[best[j]].score_after.eq(&changes[acc].score_after) {
            assert(first_same_score(scores_after(changes@), best@, acc, j as int) == j);
            return best[j];
        }
        proof {
            lemma_first_same_score_range(scores_after(changes@), best@, acc, j as int + 1);
        }
        j = j + 1;
    }
    best[0]
}

} // verus!
