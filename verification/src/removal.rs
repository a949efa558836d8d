//! Choosing the nodes to remove from the network, and why.
use vstd::prelude::*;
use crate::features::{opt_view, NodeFeature, NUM_FEATURES};
use crate::rules::texts;
use crate::subnet::{str_eq, HealthStatus, Node};
use crate::text::push_str;

verus! {

/// The text `s` in lower case, as the standard library's `str::to_lowercase` gives it.
pub uninterp spec fn lowercase(s: Seq<char>) -> Seq<char>;

/// `str::to_lowercase` of the standard library: its result is named [`lowercase`] of the
/// argument; what the lower case of a character is, Unicode decides and nothing here states.
#[verifier::external_body]
fn to_lower(s: &str) -> (r: String)
    ensures
        r@ == lowercase(s@),
{
    s.to_lowercase()
}

/// Why a node is removed.
#[derive(Debug, Clone, PartialEq, Eq)]
pub enum NodeRemovalReason {
    /// The node duplicates the node with this principal.
    Duplicates(String),
    /// The node is unhealthy.
    Unhealthy(HealthStatus),
    /// The node matches this filter.
    MatchedFilter(String),
}

/// A node to remove and why.
#[derive(Debug, Clone)]
pub struct NodeRemoval {
    pub node: Node,
    pub reason: NodeRemovalReason,
}

/// Which nodes to remove: those matching a filter, and, unless `no_auto`, duplicates and dead
/// nodes (and, with `remove_degraded`, degraded ones); never nodes in a subnet, nodes with an
/// open proposal, or nodes matching `exclude`.
#[derive(Debug, Clone)]
pub struct NodesRemover {
    pub no_auto: bool,
    pub remove_degraded: bool,
    pub extra_nodes_filter: Vec<String>,
    pub exclude: Option<Vec<String>>,
    pub motivation: String,
}

/// Whether node `n` matches `value`: its principal is `value` in lower case, or one of its
/// feature values is, both in lower case.
pub open spec fn matches_value(n: Node, value: Seq<char>) -> bool {
    n.principal@ == lowercase(value) || exists|i: int|
        0 <= i < NUM_FEATURES && #[trigger] opt_view_lower(n.features.spec_get(NodeFeature::spec_at(i))) == Some(
            lowercase(value),
        )
}

/// The lower case of an optional text.
pub open spec fn opt_view_lower(o: Option<Seq<char>>) -> Option<Seq<char>> {
    match o {
        Some(v) => Some(lowercase(v)),
        None => None,
    }
}

/// The health recorded for principal `p`: the first entry for it, or unknown.
pub open spec fn health_of(healths: Seq<(String, HealthStatus)>, p: Seq<char>) -> HealthStatus
    decreases healths.len(),
{
    if healths.len() == 0 {
        HealthStatus::Unknown
    } else if healths[0].0@ == p {
        healths[0].1
    } else {
        health_of(healths.drop_first(), p)
    }
}

/// The first filter of `filters` that node `n` matches, if any.
pub open spec fn first_match(filters: Seq<String>, n: Node) -> Option<String>
    decreases filters.len(),
{
    if filters.len() == 0 {
        None
    } else if matches_value(n, filters[0]@) {
        Some(filters[0])
    } else {
        first_match(filters.drop_first(), n)
    }
}

impl NodesRemover {
    /// Why node `n`, of health `status`, is to be removed, if it is.
    pub open spec fn removal_reason(self, n: Node, status: HealthStatus) -> Option<NodeRemovalReason> {
        if n.proposal is Some || n.subnet_id is Some {
            None
        } else if self.exclude matches Some(ex) && exists|j: int| 0 <= j < ex@.len() && matches_value(n, #[trigger] ex@[j]@) {
            None
        } else if first_match(self.extra_nodes_filter@, n) is Some {
            Some(NodeRemovalReason::MatchedFilter(first_match(self.extra_nodes_filter@, n).unwrap()))
        } else if !self.no_auto && n.duplicates is Some {
            Some(NodeRemovalReason::Duplicates(n.duplicates.unwrap()))
        } else if !self.no_auto && (status == HealthStatus::Dead || (self.remove_degraded && status == HealthStatus::Degraded)) {
            Some(NodeRemovalReason::Unhealthy(status))
        } else {
            None
        }
    }

    /// The nodes of `nodes` to remove, in order, with why.
    pub open spec fn removals(self, healths: Seq<(String, HealthStatus)>, nodes: Seq<Node>) -> Seq<(Node, NodeRemovalReason)>
        decreases nodes.len(),
    {
        if nodes.len() == 0 {
            Seq::empty()
        } else {
            let rest = self.removals(healths, nodes.drop_last());
            let n = nodes.last();
            match self.removal_reason(n, health_of(healths, n.principal@)) {
                Some(r) => rest.push((n, r)),
                None => rest,
            }
        }
    }

    /// The line of the motivation for a removal with reason `r`.
    pub open spec fn motivation_line(self, r: NodeRemovalReason) -> Seq<char> {
        match r {
            NodeRemovalReason::MatchedFilter(_) => self.motivation@,
            _ => "Removing unhealthy nodes from the network, for redeployment"@,
        }
    }
}

/// The removals with their nodes and reasons.
pub open spec fn removal_pairs(v: Seq<NodeRemoval>) -> Seq<(Node, NodeRemovalReason)> {
    v.map_values(|r: NodeRemoval| (r.node, r.reason))
}

/// The distinct texts of `s`, in the order of their first occurrence.
pub open spec fn unique_texts(s: Seq<Seq<char>>) -> Seq<Seq<char>>
    decreases s.len(),
{
    if s.len() == 0 {
        Seq::empty()
    } else {
        let u = unique_texts(s.drop_last());
        if u.contains(s.last()) {
            u
        } else {
            u.push(s.last())
        }
    }
}

/// Each text on a line of its own, after " * ", the lines separated by line breaks.
pub open spec fn bullets(s: Seq<Seq<char>>) -> Seq<char>
    decreases s.len(),
{
    if s.len() == 0 {
        Seq::empty()
    } else if s.len() == 1 {
        " * "@ + s[0]
    } else {
        bullets(s.drop_last()) + "\n"@ + " * "@ + s.last()
    }
}


impl Node {
    /// Whether the node matches `value` (see [`matches_value`]).
    pub fn matches_feature_value(&self, value: &str) -> (r: bool)
        ensures
            r == matches_value(*self, value@),
    {
        let lv = to_lower(value);
        if str_eq(self.principal.as_str(), lv.as_str()) {
            return true;
        }
        let mut i: usize = 0;
        while i < NUM_FEATURES
            invariant
                i <= NUM_FEATURES,
                lv@ == lowercase(value@),
                self.principal@ != lowercase(value@),
                forall|j: int|
                    0 <= j < i ==> #[trigger] opt_view_lower(self.features.spec_get(NodeFeature::spec_at(j))) != Some(
                        lowercase(value@),
                    ),
            decreases NUM_FEATURES - i,
        {
            let f = NodeFeature::at(i);
            match self.get_feature(&f) {
                Some(v) => {
                    let lower = to_lower(v.as_str());
                    if str_eq(lower.as_str(), lv.as_str()) {
                        assert(opt_view_lower(self.features.spec_get(NodeFeature::spec_at(i as int))) == Some(
                            lowercase(value@),
                        ));
                        return true;
                    }
                },
                None => {},
            }
            i = i + 1;
        }
        false
    }
}

/// The health recorded for principal `p` (see [`health_of`]).
fn lookup_health(healths: &Vec<(String, HealthStatus)>, p: &str) -> (r: HealthStatus)
    ensures
        r == health_of(healths@, p@),
{
    let mut i: usize = 0;
    assert(healths@.skip(0) =~= healths@);
    while i < healths.len()
        invariant
            i <= healths@.len(),
            health_of(healths@, p@) == health_of(healths@.skip(i as int), p@),
        decreases healths.len() - i,
    {
        assert(healths@.skip(i as int).drop_first() =~= healths@.skip(i as int + 1));
        assert(healths@.skip(i as int)[0] == healths@[i as int]);
        if str_eq(healths[i].0.as_str(), p) {
            return healths[i].1;
        }
        i = i + 1;
    }
    HealthStatus::Unknown
}

/// The first filter that node `n` matches (see [`first_match`]).
fn find_matching_filter(filters: &Vec<String>, n: &Node) -> (r: Option<String>)
    ensures
        r == first_match(filters@, *n),
{
    let mut i: usize = 0;
    assert(filters@.skip(0) =~= filters@);
    while i < filters.len()
        invariant
            i <= filters@.len(),
            first_match(filters@, *n) == first_match(filters@.skip(i as int), *n),
        decreases filters.len() - i,
    {
        assert(filters@.skip(i as int).drop_first() =~= filters@.skip(i as int + 1));
        assert(filters@.skip(i as int)[0] == filters@[i as int]);
        if n.matches_feature_value(filters[i].as_str()) {
            return Some(filters[i].clone());
        }
        i = i + 1;
    }
    None
}

/// Whether node `n` matches one of `exclude`.
fn matches_any(exclude: &Vec<String>, n: &Node) -> (r: bool)
    ensures
        r == exists|j: int| 0 <= j < exclude@.len() && matches_value(*n, #[trigger] exclude@[j]@),
{
    let mut i: usize = 0;
    while i < exclude.len()
        invariant
            i <= exclude@.len(),
            forall|j: int| 0 <= j < i ==> !matches_value(*n, #[trigger] exclude@[j]@),
        decreases exclude.len() - i,
    {
        if n.matches_feature_value(exclude[i].as_str()) {
            return true;
        }
        i = i + 1;
    }
    false
}

impl NodesRemover {
    fn reason_for(&self, n: &Node, status: HealthStatus) -> (r: Option<NodeRemovalReason>)
        ensures
            r == self.removal_reason(*n, status),
    {
        if n.proposal.is_some() || n.subnet_id.is_some() {
            return None;
        }
        match &self.exclude {
            Some(ex) => {
                if matches_any(ex, n) {
                    return None;
                }
            },
            None => {},
        }
        match find_matching_filter(&self.extra_nodes_filter, n) {
            Some(f) => {
                return Some(NodeRemovalReason::MatchedFilter(f));
            },
            None => {},
        }
        if !self.no_auto {
            match &n.duplicates {
                Some(p) => {
                    return Some(NodeRemovalReason::Duplicates(p.clone()));
                },
                None => {},
            }
            let remove = if self.remove_degraded {
                status == HealthStatus::Dead || status == HealthStatus::Degraded
            } else {
                status == HealthStatus::Dead
            };
            if remove {
                return Some(NodeRemovalReason::Unhealthy(status));
            }
        }
        None
    }

    /// The nodes of `nodes` to remove, with why (see [`NodesRemover::removals`]; the health of a
    /// node is the first entry of `healths` for its principal), and the motivation: a line break
    /// followed by one line per distinct reason text, in the order of first occurrence.
    pub fn remove_nodes(&self, healths: &Vec<(String, HealthStatus)>, nodes: &Vec<Node>) -> (r: (Vec<NodeRemoval>, String))
        ensures
            removal_pairs(r.0@) == self.removals(healths@, nodes@),
            r.1@ == "\n"@ + bullets(
                unique_texts(self.removals(healths@, nodes@).map_values(|p: (Node, NodeRemovalReason)| self.motivation_line(p.1))),
            ),
    {
        let mut out: Vec<NodeRemoval> = Vec::new();
        let mut lines: Vec<String> = Vec::new();
        let mut i: usize = 0;
        assert(nodes@.take(0) =~= Seq::<Node>::empty());
        while i < nodes.len()
            invariant
                i <= nodes@.len(),
                removal_pairs(out@) == self.removals(healths@, nodes@.take(i as int)),
                texts(lines@) == unique_texts(
                    self.removals(healths@, nodes@.take(i as int)).map_values(
                        |p: (Node, NodeRemovalReason)| self.motivation_line(p.1),
                    ),
                ),
            decreases nodes.len() - i,
        {
            let ghost t = nodes@.take(i as int + 1);
            assert(t.drop_last() =~= nodes@.take(i as int));
            assert(t.last() == nodes@[i as int]);
            let n = &nodes[i];
            let status = lookup_health(healths, n.principal.as_str());
            let reason = self.reason_for(n, status);
            let ghost before_out = out@;
            let ghost before_removals = self.removals(healths@, nodes@.take(i as int));
            match reason {
                Some(r) => {
                    let line: String = match &r {
                        NodeRemovalReason::MatchedFilter(_) => self.motivation.clone(),
                        _ => String::from_str("Removing unhealthy nodes from the network, for redeployment"),
                    };
                    let ghost rv = r;
                    out.push(NodeRemoval { node: n.copied(), reason: r });
                    proof {
                        assert(removal_pairs(out@) =~= removal_pairs(before_out).push((nodes@[i as int], rv)));
                        let f = |p: (Node, NodeRemovalReason)| self.motivation_line(p.1);
                        let l = before_removals.map_values(f);
                        assert(before_removals.push((nodes@[i as int], rv)).map_values(f) =~= l.push(line@));
                        assert(l.push(line@).drop_last() =~= l);
                        assert(unique_texts(l.push(line@)) == if unique_texts(l).contains(line@) {
                            unique_texts(l)
                        } else {
                            unique_texts(l).push(line@)
                        });
                    }
                    if !contains_text(&lines, &line) {
                        let ghost before_lines = lines@;
                        lines.push(line);
                        proof {
                            crate::rules::lemma_texts_push_pub(before_lines, lines@[lines@.len() - 1]);
                        }
                    }
                },
                None => {},
            }
            i = i + 1;
        }
        assert(nodes@.take(nodes@.len() as int) =~= nodes@);
        let mut m = String::from_str("\n");
        let mut k: usize = 0;
        while k < lines.len()
            invariant
                k <= lines@.len(),
                m@ == "\n"@ + bullets(texts(lines@).take(k as int)),
            decreases lines.len() - k,
        {
            let ghost t = texts(lines@).take(k as int + 1);
            assert(t.drop_last() =~= texts(lines@).take(k as int));
            assert(t.last() == lines@[k as int]@);
            if k > 0 {
                push_str(&mut m, "\n");
            }
            push_str(&mut m, " * ");
            push_str(&mut m, lines[k].as_str());
            proof {
                if k == 0 {
                    assert(texts(lines@).take(0) =~= Seq::<Seq<char>>::empty());
                    assert(t[0] == t.last());
                }
                assert(m@ =~= "\n"@ + bullets(t));
            }
            k = k + 1;
        }
        assert(texts(lines@).take(lines@.len() as int) =~= texts(lines@));
        (out, m)
    }
}

/// Whether `v` holds a text equal to `t`.
fn contains_text(v: &Vec<String>, t: &String) -> (r: bool)
    ensures
        r == texts(v@).contains(t@),
{
    let mut i: usize = 0;
    while i < v.len()
        invariant
            i <= v@.len(),
            forall|j: int| 0 <= j < i ==> v@[j]@ != t@,
        decreases v.len() - i,
    {
        if v[i] == *t {
            assert(texts(v@)[i as int] == t@);
            return true;
        }
        i = i + 1;
    }
    assert forall|j: int| 0 <= j < texts(v@).len() implies texts(v@)[j] != t@ by {
        assert(texts(v@)[j] == v@[j]@);
    }
    false
}


/// The nodes of `nodes` that are not known to be healthy.
pub open spec fn unhealthy_nodes(healths: Seq<(String, HealthStatus)>, nodes: Seq<Node>) -> Seq<Node> {
    nodes.filter(|n: Node| health_of(healths, n.principal@) != HealthStatus::Healthy)
}

/// Each subnet with a node that is not known to be healthy, with those nodes, in order.
pub open spec fn spec_unhealthy_with_nodes(
    subnets: Seq<crate::network::DecentralizedSubnet>,
    healths: Seq<(String, HealthStatus)>,
) -> Seq<(Seq<char>, Seq<Node>)>
    decreases subnets.len(),
{
    if subnets.len() == 0 {
        Seq::empty()
    } else {
        let rest = spec_unhealthy_with_nodes(subnets.drop_last(), healths);
        let s = subnets.last();
        let u = unhealthy_nodes(healths, s.nodes@);
        if u.len() > 0 {
            rest.push((s.id@, u))
        } else {
            rest
        }
    }
}

/// The views of subnets with nodes.
pub open spec fn subnet_nodes_view(v: Seq<(String, Vec<Node>)>) -> Seq<(Seq<char>, Seq<Node>)> {
    v.map_values(|p: (String, Vec<Node>)| (p.0@, p.1@))
}

pub fn unhealthy_of(healths: &Vec<(String, HealthStatus)>, nodes: &Vec<Node>) -> (r: Vec<Node>)
    ensures
        r@ == unhealthy_nodes(healths@, nodes@),
{
    let mut r: Vec<Node> = Vec::new();
    let mut i: usize = 0;
    assert(unhealthy_nodes(healths@, nodes@.take(0)) =~= Seq::<Node>::empty()) by {
        reveal(Seq::filter);
    }
    while i < nodes.len()
        invariant
            i <= nodes@.len(),
            r@ == unhealthy_nodes(healths@, nodes@.take(i as int)),
        decreases nodes.len() - i,
    {
        let ghost t = nodes@.take(i as int + 1);
        assert(t.drop_last() =~= nodes@.take(i as int));
        assert(t.last() == nodes@[i as int]);
        let h = lookup_health(healths, nodes[i].principal.as_str());
        let keep = h != HealthStatus::Healthy;
        assert(unhealthy_nodes(healths@, t) == if keep {
            unhealthy_nodes(healths@, nodes@.take(i as int)).push(nodes@[i as int])
        } else {
            unhealthy_nodes(healths@, nodes@.take(i as int))
        }) by {
            reveal(Seq::filter);
        }
        if keep {
            r.push(nodes[i].copied());
        }
        i = i + 1;
    }
    assert(nodes@.take(nodes@.len() as int) =~= nodes@);
    r
}

/// Each subnet with a node that is not known to be healthy (a node without a recorded health
/// counts as unhealthy), with those nodes.
pub fn unhealthy_with_nodes(
    subnets: &Vec<crate::network::DecentralizedSubnet>,
    healths: &Vec<(String, HealthStatus)>,
) -> (r: Vec<(String, Vec<Node>)>)
    ensures
        subnet_nodes_view(r@) == spec_unhealthy_with_nodes(subnets@, healths@),
{
    let mut r: Vec<(String, Vec<Node>)> = Vec::new();
    let mut i: usize = 0;
    assert(subnets@.take(0) =~= Seq::<crate::network::DecentralizedSubnet>::empty());
    assert(subnet_nodes_view(r@) =~= Seq::<(Seq<char>, Seq<Node>)>::empty());
    while i < subnets.len()
        invariant
            i <= subnets@.len(),
            subnet_nodes_view(r@) == spec_unhealthy_with_nodes(subnets@.take(i as int), healths@),
        decreases subnets.len() - i,
    {
        let ghost t = subnets@.take(i as int + 1);
        assert(t.drop_last() =~= subnets@.take(i as int));
        assert(t.last() == subnets@[i as int]);
        let u = unhealthy_of(healths, &subnets[i].nodes);
        if u.len() > 0 {
            let ghost before = r@;
            r.push((subnets[i].id.clone(), u));
            assert(subnet_nodes_view(r@) =~= subnet_nodes_view(before).push((subnets@[i as int].id@, r@[r@.len() - 1].1@)));
        }
        i = i + 1;
    }
    assert(subnets@.take(subnets@.len() as int) =~= subnets@);
    r
}


/// The health recorded for principal `p` (see [`health_of`]).
pub fn lookup_health_pub(healths: &Vec<(String, HealthStatus)>, p: &str) -> (r: HealthStatus)
    ensures
        r == health_of(healths@, p@),
{
    lookup_health(healths, p)
}

} // verus!
