//! Subnets as sets of nodes, and the changes made to them.
use vstd::prelude::*;
use crate::features::{opt_view, NodeFeature};
use crate::rules::{business_rules, check_business_rules_for_subnet_with_nodes, texts};
use crate::score::NakamotoScore;
use crate::subnet::{copy_nodes, nakamoto_score_of, node_feature_seq, str_eq, HealthStatus, Node};
use crate::text::push_str;
use crate::categories::{find_char_exec, lemma_find_char_bounds};
use vstd::string::StrSliceExecFns;

verus! {

/// Why a change of the network could not be made.
#[derive(Debug, Clone, PartialEq, Eq)]
pub enum NetworkError {
    /// A node to be removed is not in the subnet (its principal).
    NodeNotFound(String),
    /// The subnet could not be resized (why).
    ResizeFailed(String),
}

/// Why decentralization data could not be given.
#[derive(Debug, Clone, Copy, PartialEq, Eq)]
pub enum DecentralizationError {
    FeatureNotAvailable,
}

impl DecentralizationError {
    /// The message sent back for the error.
    pub fn message(&self) -> (r: String)
        ensures
            r@ == "NodeFeature not available. For access contact the administrator"@,
    {
        String::from_str("NodeFeature not available. For access contact the administrator")
    }
}

/// Where a data center is.
#[derive(Debug, Clone)]
pub struct DataCenterInfo {
    pub area: String,
    pub country: String,
    pub continent: String,
}

/// A value of a feature whose nodes may not join subnets, with why.
#[derive(Debug, Clone)]
pub struct CordonedFeature {
    pub feature: NodeFeature,
    pub value: String,
    pub explanation: Option<String>,
}

/// A subnet: its principal (in text form), its nodes, the nodes added to it and removed from
/// it, and a record of how they were chosen.
#[derive(Debug, Clone)]
pub struct DecentralizedSubnet {
    pub id: String,
    pub nodes: Vec<Node>,
    pub added_nodes: Vec<Node>,
    pub removed_nodes: Vec<Node>,
    pub comment: Option<String>,
    pub run_log: Vec<String>,
}

/// The principals of nodes.
pub open spec fn principals(nodes: Seq<Node>) -> Seq<Seq<char>> {
    nodes.map_values(|n: Node| n.principal@)
}

/// The first position of a node with principal `p` in `nodes`, or -1.
pub open spec fn position_of(nodes: Seq<Node>, p: Seq<char>) -> int
    decreases nodes.len(),
{
    if nodes.len() == 0 {
        -1
    } else if position_of(nodes.drop_last(), p) >= 0 {
        position_of(nodes.drop_last(), p)
    } else if nodes.last().principal@ == p {
        nodes.len() - 1
    } else {
        -1
    }
}

/// Removing each node of `rm` in turn (the first node with its principal) from `nodes`: the nodes
/// left and the nodes removed, or the principal of the first node of `rm` that was not found.
pub open spec fn remove_each(nodes: Seq<Node>, rm: Seq<Node>) -> Result<(Seq<Node>, Seq<Node>), Seq<char>>
    decreases rm.len(),
{
    if rm.len() == 0 {
        Ok((nodes, Seq::empty()))
    } else {
        match remove_each(nodes, rm.drop_last()) {
            Err(e) => Err(e),
            Ok(p) => {
                let i = position_of(p.0, rm.last().principal@);
                if i < 0 {
                    Err(rm.last().principal@)
                } else {
                    Ok((p.0.remove(i), p.1.push(p.0[i])))
                }
            },
        }
    }
}

/// A list of texts, each quoted where `quoted`, between brackets and separated by ", ".
pub open spec fn list_text(items: Seq<Seq<char>>, quoted: bool) -> Seq<char> {
    "["@ + join_items(items, quoted) + "]"@
}

/// The items, each quoted where `quoted`, separated by ", ".
pub open spec fn join_items(items: Seq<Seq<char>>, quoted: bool) -> Seq<char>
    decreases items.len(),
{
    if items.len() == 0 {
        Seq::empty()
    } else {
        let q = if quoted {
            "\""@ + items.last() + "\""@
        } else {
            items.last()
        };
        if items.len() == 1 {
            q
        } else {
            join_items(items.drop_last(), quoted) + ", "@ + q
        }
    }
}

/// The part of `s` before its first '-' (empty when it has none).
pub open spec fn before_dash(s: Seq<char>) -> Seq<char> {
    let i = crate::categories::find_char(s, '-', 0);
    if i < s.len() {
        s.take(i)
    } else {
        Seq::empty()
    }
}

fn list_of(items: &Vec<String>, quoted: bool) -> (r: String)
    ensures
        r@ == list_text(texts(items@), quoted),
{
    let mut s = String::from_str("[");
    let mut i: usize = 0;
    proof {
        reveal_strlit("[");
    }
    assert(s@ =~= "["@ + join_items(texts(items@).take(0), quoted));
    while i < items.len()
        invariant
            i <= items@.len(),
            s@ == "["@ + join_items(texts(items@).take(i as int), quoted),
        decreases items.len() - i,
    {
        let ghost before = s@;
        if i > 0 {
            push_str(&mut s, ", ");
        }
        if quoted {
            push_str(&mut s, "\"");
        }
        push_str(&mut s, items[i].as_str());
        if quoted {
            push_str(&mut s, "\"");
        }
        proof {
            let t = texts(items@).take(i as int + 1);
            assert(t.drop_last() =~= texts(items@).take(i as int));
            assert(t.last() == items@[i as int]@);
            if i > 0 {
                assert(s@ =~= "["@ + join_items(t, quoted));
            } else {
                assert(texts(items@).take(0) =~= Seq::<Seq<char>>::empty());
                assert(s@ =~= "["@ + join_items(t, quoted));
            }
        }
        i = i + 1;
    }
    push_str(&mut s, "]");
    assert(texts(items@).take(items@.len() as int) =~= texts(items@));
    s
}


/// The part of `s` before its first '-' (empty when it has none).
fn before_dash_of(s: &str) -> (r: String)
    ensures
        r@ == before_dash(s@),
{
    let len = s.unicode_len();
    proof {
        lemma_find_char_bounds(s@, '-', 0);
    }
    let i = find_char_exec(s, len, '-', 0);
    if i < len {
        let t = String::from_str(s.substring_char(0, i));
        assert(s@.subrange(0, i as int) =~= s@.take(i as int));
        t
    } else {
        String::new()
    }
}

/// The principal of each node.
pub fn principals_of(nodes: &Vec<Node>) -> (r: Vec<String>)
    ensures
        texts(r@) == principals(nodes@),
{
    let mut r: Vec<String> = Vec::new();
    let mut i: usize = 0;
    while i < nodes.len()
        invariant
            i <= nodes@.len(),
            texts(r@) == principals(nodes@).take(i as int),
        decreases nodes.len() - i,
    {
        let ghost before = r@;
        r.push(nodes[i].principal.clone());
        assert(texts(r@) =~= texts(before).push(nodes@[i as int].principal@));
        assert(texts(r@) =~= principals(nodes@).take(i as int + 1));
        i = i + 1;
    }
    assert(principals(nodes@).take(nodes@.len() as int) =~= principals(nodes@));
    r
}

/// Position of the first node with principal `p`.
pub fn find_node(nodes: &Vec<Node>, p: &str) -> (r: Option<usize>)
    ensures
        match r {
            Some(i) => i < nodes@.len() && i == position_of(nodes@, p@),
            None => position_of(nodes@, p@) == -1,
        },
{
    let mut i: usize = 0;
    while i < nodes.len()
        invariant
            i <= nodes@.len(),
            position_of(nodes@.take(i as int), p@) == -1,
        decreases nodes.len() - i,
    {
        let ghost t = nodes@.take(i as int + 1);
        assert(t.drop_last() =~= nodes@.take(i as int));
        if str_eq(nodes[i].principal.as_str(), p) {
            proof {
                lemma_position_prefix(nodes@, i as int + 1, p@);
            }
            return Some(i);
        }
        i = i + 1;
    }
    assert(nodes@.take(nodes@.len() as int) =~= nodes@);
    None
}

proof fn lemma_position_prefix(nodes: Seq<Node>, k: int, p: Seq<char>)
    requires
        0 <= k <= nodes.len(),
        position_of(nodes.take(k), p) >= 0,
    ensures
        position_of(nodes, p) == position_of(nodes.take(k), p),
    decreases nodes.len() - k,
{
    if k < nodes.len() {
        assert(nodes.take(k + 1).drop_last() =~= nodes.take(k));
        lemma_position_prefix(nodes, k + 1, p);
    } else {
        assert(nodes.take(k) =~= nodes);
    }
}

pub proof fn lemma_position_bounds(nodes: Seq<Node>, p: Seq<char>)
    ensures
        -1 <= position_of(nodes, p) < nodes.len(),
        position_of(nodes, p) >= 0 ==> nodes[position_of(nodes, p)].principal@ == p,
    decreases nodes.len(),
{
    if nodes.len() > 0 {
        lemma_position_bounds(nodes.drop_last(), p);
    }
}

/// Whether `s` is `sub` once each of `rm`, in turn, took the first node with its principal out
/// of the subnet and onto the removed nodes (all of them found), with a line in the run log that
/// lists the principals of all removed nodes, when there are any.
pub open spec fn subnet_without(sub: DecentralizedSubnet, rm: Seq<Node>, s: DecentralizedSubnet) -> bool {
    match remove_each(sub.nodes@, rm) {
        Err(_) => false,
        Ok(res) => {
            let removed = sub.removed_nodes@ + res.1;
            &&& s.id == sub.id
            &&& s.nodes@ == res.0
            &&& s.added_nodes@ == sub.added_nodes@
            &&& s.removed_nodes@ == removed
            &&& s.comment == sub.comment
            &&& texts(s.run_log@) == if removed.len() == 0 {
                texts(sub.run_log@)
            } else {
                texts(sub.run_log@).push("Removed nodes from subnet "@ + list_text(principals(removed), false))
            }
        },
    }
}

impl DecentralizedSubnet {
    /// A subnet with principal `subnet_id` and nodes `nodes`, with nothing added or removed.
    pub fn new_with_subnet_id_and_nodes(subnet_id: String, nodes: Vec<Node>) -> (r: Self)
        ensures
            r.id == subnet_id,
            r.nodes == nodes,
            r.added_nodes@.len() == 0,
            r.removed_nodes@.len() == 0,
            r.comment.is_none(),
            r.run_log@.len() == 0,
    {
        DecentralizedSubnet {
            id: subnet_id,
            nodes,
            added_nodes: Vec::new(),
            removed_nodes: Vec::new(),
            comment: None,
            run_log: Vec::new(),
        }
    }

    /// The same subnet under another principal.
    pub fn with_subnet_id(self, subnet_id: String) -> (r: Self)
        ensures
            r.id == subnet_id,
            r.nodes == self.nodes,
            r.added_nodes == self.added_nodes,
            r.removed_nodes == self.removed_nodes,
            r.comment == self.comment,
            r.run_log == self.run_log,
    {
        DecentralizedSubnet { id: subnet_id, ..self }
    }

    /// The subnet without `nodes_to_remove`: each, in turn, takes the first node with its
    /// principal out of the subnet and onto the removed nodes. A node that is not in the subnet
    /// is an error. The run log records the principals of all removed nodes, when there are any.
    pub fn without_nodes(&self, nodes_to_remove: &Vec<Node>) -> (r: Result<Self, NetworkError>)
        ensures
            match remove_each(self.nodes@, nodes_to_remove@) {
                Err(p) => r matches Err(NetworkError::NodeNotFound(q)) && q@ == p,
                Ok(_) => r matches Ok(s) && subnet_without(*self, nodes_to_remove@, s),
            },
    {
        let mut nodes = copy_nodes(&self.nodes);
        let mut removed = copy_nodes(&self.removed_nodes);
        let mut j: usize = 0;
        let ghost mut newly: Seq<Node> = Seq::empty();
        assert(nodes_to_remove@.take(0) =~= Seq::<Node>::empty());
        while j < nodes_to_remove.len()
            invariant
                j <= nodes_to_remove@.len(),
                remove_each(self.nodes@, nodes_to_remove@.take(j as int)) == Ok::<(Seq<Node>, Seq<Node>), Seq<char>>((nodes@, newly)),
                removed@ == self.removed_nodes@ + newly,
            decreases nodes_to_remove.len() - j,
        {
            let ghost t = nodes_to_remove@.take(j as int + 1);
            assert(t.drop_last() =~= nodes_to_remove@.take(j as int));
            assert(t.last() == nodes_to_remove@[j as int]);
            let p = nodes_to_remove[j].principal.as_str();
            match find_node(&nodes, p) {
                Some(i) => {
                    proof {
                        lemma_position_bounds(nodes@, p@);
                        newly = newly.push(nodes@[i as int]);
                    }
                    let n = nodes.remove(i);
                    removed.push(n);
                },
                None => {
                    proof {
                        lemma_remove_each_err(self.nodes@, nodes_to_remove@, j as int + 1);
                    }
                    return Err(NetworkError::NodeNotFound(nodes_to_remove[j].principal.clone()));
                },
            }
            j = j + 1;
        }
        assert(nodes_to_remove@.take(nodes_to_remove@.len() as int) =~= nodes_to_remove@);
        let mut run_log = self.run_log.clone();
        if removed.len() > 0 {
            let ids = principals_of(&removed);
            let mut m = String::from_str("Removed nodes from subnet ");
            let l = list_of(&ids, false);
            push_str(&mut m, l.as_str());
            proof {
                crate::rules::lemma_texts_push_pub(run_log@, m);
            }
            run_log.push(m);
        }
        let out = DecentralizedSubnet {
            id: self.id.clone(),
            nodes,
            added_nodes: copy_nodes(&self.added_nodes),
            removed_nodes: removed,
            comment: crate::features::clone_opt(&self.comment),
            run_log,
        };
        assert(remove_each(self.nodes@, nodes_to_remove@) == Ok::<(Seq<Node>, Seq<Node>), Seq<char>>((out.nodes@, newly)));
        assert(out.removed_nodes@ =~= self.removed_nodes@ + newly);
        assert(texts(out.run_log@) =~= if out.removed_nodes@.len() == 0 {
            texts(self.run_log@)
        } else {
            texts(self.run_log@).push("Removed nodes from subnet "@ + list_text(principals(out.removed_nodes@), false))
        });
        assert(subnet_without(*self, nodes_to_remove@, out));
        Ok(out)
    }
}

proof fn lemma_remove_each_err(nodes: Seq<Node>, rm: Seq<Node>, k: int)
    requires
        0 < k <= rm.len(),
        remove_each(nodes, rm.take(k)) is Err,
    ensures
        remove_each(nodes, rm) == remove_each(nodes, rm.take(k)),
    decreases rm.len() - k,
{
    if k < rm.len() {
        assert(rm.take(k + 1).drop_last() =~= rm.take(k));
        lemma_remove_each_err(nodes, rm, k + 1);
    } else {
        assert(rm.take(k) =~= rm);
    }
}


/// Whether a node with principal `p` is among `nodes`.
fn has_principal(nodes: &Vec<Node>, p: &str) -> (r: bool)
    ensures
        r == principals(nodes@).contains(p@),
{
    proof {
        lemma_position_bounds(nodes@, p@);
        lemma_position_complete(nodes@, p@);
    }
    match find_node(nodes, p) {
        Some(i) => {
            assert(principals(nodes@)[i as int] == p@);
            true
        },
        None => false,
    }
}

proof fn lemma_position_complete(nodes: Seq<Node>, p: Seq<char>)
    ensures
        position_of(nodes, p) == -1 <==> !principals(nodes).contains(p),
    decreases nodes.len(),
{
    lemma_position_bounds(nodes, p);
    if nodes.len() > 0 {
        lemma_position_complete(nodes.drop_last(), p);
        assert(principals(nodes.drop_last()) =~= principals(nodes).drop_last());
        if principals(nodes).contains(p) {
            let k = choose|k: int| 0 <= k < principals(nodes).len() && principals(nodes)[k] == p;
            if k < nodes.len() - 1 {
                assert(principals(nodes.drop_last())[k] == p);
            }
        }
        if position_of(nodes, p) >= 0 {
            assert(principals(nodes)[position_of(nodes, p)] == p);
        }
    }
}

/// The nodes of `nodes` whose principal is not among `others`.
pub open spec fn without_principals_of(nodes: Seq<Node>, others: Seq<Node>) -> Seq<Node> {
    nodes.filter(|n: Node| !principals(others).contains(n.principal@))
}

/// The nodes of `nodes` whose principal is not among `others`.
pub fn filter_out_principals(nodes: &Vec<Node>, others: &Vec<Node>) -> (r: Vec<Node>)
    ensures
        r@ == without_principals_of(nodes@, others@),
{
    let mut r: Vec<Node> = Vec::new();
    let mut i: usize = 0;
    assert(without_principals_of(nodes@.take(0), others@) =~= Seq::<Node>::empty()) by {
        reveal(Seq::filter);
    }
    while i < nodes.len()
        invariant
            i <= nodes@.len(),
            r@ == without_principals_of(nodes@.take(i as int), others@),
        decreases nodes.len() - i,
    {
        let ghost t = nodes@.take(i as int + 1);
        assert(t.drop_last() =~= nodes@.take(i as int));
        assert(t.last() == nodes@[i as int]);
        let keep = !has_principal(others, nodes[i].principal.as_str());
        assert(without_principals_of(t, others@) == if keep {
            without_principals_of(nodes@.take(i as int), others@).push(nodes@[i as int])
        } else {
            without_principals_of(nodes@.take(i as int), others@)
        }) by {
            reveal(Seq::filter);
        }
        if keep {
            r.push(nodes[i].copied());
        }
        i = i + 1;
    }
    assert(nodes@.take(nodes@.len() as int) =~= nodes@);
    r
}

/// The nodes of `nodes` whose feature `f` has the value `v`.
pub open spec fn with_feature_value(nodes: Seq<Node>, f: NodeFeature, v: Seq<char>) -> Seq<Node> {
    nodes.filter(|n: Node| n.features.spec_get(f) == Some(v))
}

/// The most frequent value of feature `f` among `nodes` (empty when no node has one).
pub open spec fn dominant_value(nodes: Seq<Node>, f: NodeFeature) -> Seq<char> {
    let vc = crate::score::spec_feature_value_counts(node_feature_seq(nodes), f);
    if vc.len() > 0 {
        vc[0].0
    } else {
        Seq::empty()
    }
}

/// The first part of the principal of each node, before its first '-'.
pub open spec fn short_principals(nodes: Seq<Node>) -> Seq<Seq<char>> {
    nodes.map_values(|n: Node| before_dash(n.principal@))
}

impl DecentralizedSubnet {
    /// The subnet with `nodes_to_add` appended to its nodes and to its added nodes; the run log
    /// records the first part of their principals, when there are any.
    pub fn with_nodes(self, nodes_to_add: &Vec<Node>) -> (r: Self)
        ensures
            r.id == self.id,
            r.nodes@ == self.nodes@ + nodes_to_add@,
            r.added_nodes@ == self.added_nodes@ + nodes_to_add@,
            r.removed_nodes == self.removed_nodes,
            r.comment == self.comment,
            texts(r.run_log@) == if nodes_to_add@.len() == 0 {
                texts(self.run_log@)
            } else {
                texts(self.run_log@).push("Including user-provided nodes "@ + list_text(short_principals(nodes_to_add@), true))
            },
    {
        let mut s = self;
        let mut extra = copy_nodes(nodes_to_add);
        let mut extra2 = copy_nodes(nodes_to_add);
        s.nodes.append(&mut extra);
        s.added_nodes.append(&mut extra2);
        if nodes_to_add.len() > 0 {
            let mut shorts: Vec<String> = Vec::new();
            let mut i: usize = 0;
            while i < nodes_to_add.len()
                invariant
                    i <= nodes_to_add@.len(),
                    texts(shorts@) == short_principals(nodes_to_add@).take(i as int),
                decreases nodes_to_add.len() - i,
            {
                let ghost before = shorts@;
                let t = before_dash_of(nodes_to_add[i].principal.as_str());
                shorts.push(t);
                assert(texts(shorts@) =~= texts(before).push(before_dash(nodes_to_add@[i as int].principal@)));
                assert(texts(shorts@) =~= short_principals(nodes_to_add@).take(i as int + 1));
                i = i + 1;
            }
            assert(short_principals(nodes_to_add@).take(nodes_to_add@.len() as int) =~= short_principals(nodes_to_add@));
            let mut m = String::from_str("Including user-provided nodes ");
            let l = list_of(&shorts, true);
            push_str(&mut m, l.as_str());
            proof {
                crate::rules::lemma_texts_push_pub(s.run_log@, m);
            }
            s.run_log.push(m);
        }
        s
    }

    /// A copy of the subnet.
    pub fn copied(&self) -> (r: DecentralizedSubnet)
        ensures
            r.id == self.id,
            r.nodes@ == self.nodes@,
            r.added_nodes@ == self.added_nodes@,
            r.removed_nodes@ == self.removed_nodes@,
            r.comment == self.comment,
            texts(r.run_log@) == texts(self.run_log@),
    {
        DecentralizedSubnet {
            id: self.id.clone(),
            nodes: copy_nodes(&self.nodes),
            added_nodes: copy_nodes(&self.added_nodes),
            removed_nodes: copy_nodes(&self.removed_nodes),
            comment: crate::features::clone_opt(&self.comment),
            run_log: copy_texts(&self.run_log),
        }
    }

    /// The Nakamoto score of the subnet's nodes.
    pub fn nakamoto_score(&self) -> (r: NakamotoScore)
        ensures
            r.is_score_of(node_feature_seq(self.nodes@)),
    {
        nakamoto_score_of(&self.nodes)
    }

    /// The penalties and messages of the business rules for the subnet's nodes.
    pub fn check_business_rules(&self) -> (r: (usize, Vec<String>))
        requires
            self.nodes@.len() * 100000 <= usize::MAX,
        ensures
            (r.0 as int, texts(r.1@)) == business_rules(self.id@, self.nodes@),
    {
        check_business_rules_for_subnet_with_nodes(self.id.as_str(), &self.nodes)
    }

    /// The nodes whose value of `node_feature` is the most frequent one.
    pub fn nodes_under_control_of_dominant_actor(&self, node_feature: &NodeFeature) -> (r: Vec<Node>)
        requires
            forall|i: int| 0 <= i < self.nodes@.len() ==> #[trigger] self.nodes@[i].features.spec_get(*node_feature) is Some,
        ensures
            r@ == with_feature_value(self.nodes@, *node_feature, dominant_value(self.nodes@, *node_feature)),
    {
        let score = self.nakamoto_score();
        let dominant = match score.feature_value_counts_max(node_feature) {
            Some(p) => p.0,
            None => String::new(),
        };
        proof {
            assert(crate::score::feature_score_of(score.features@[node_feature.spec_index()], node_feature_seq(self.nodes@), node_feature.spec_index()));
            assert(NodeFeature::spec_at(node_feature.spec_index()) == *node_feature);
        }
        assert(dominant@ == dominant_value(self.nodes@, *node_feature));
        let mut r: Vec<Node> = Vec::new();
        let mut i: usize = 0;
        assert(with_feature_value(self.nodes@.take(0), *node_feature, dominant@) =~= Seq::<Node>::empty()) by {
            reveal(Seq::filter);
        }
        while i < self.nodes.len()
            invariant
                i <= self.nodes@.len(),
                r@ == with_feature_value(self.nodes@.take(i as int), *node_feature, dominant@),
            decreases self.nodes.len() - i,
        {
            let ghost t = self.nodes@.take(i as int + 1);
            assert(t.drop_last() =~= self.nodes@.take(i as int));
            assert(t.last() == self.nodes@[i as int]);
            let v = self.nodes[i].get_feature(node_feature);
            let keep = match &v {
                Some(t) => *t == dominant,
                None => false,
            };
            assert(keep == (self.nodes@[i as int].features.spec_get(*node_feature) == Some(dominant@)));
            assert(with_feature_value(t, *node_feature, dominant@) == if keep {
                with_feature_value(self.nodes@.take(i as int), *node_feature, dominant@).push(self.nodes@[i as int])
            } else {
                with_feature_value(self.nodes@.take(i as int), *node_feature, dominant@)
            }) by {
                reveal(Seq::filter);
            }
            if keep {
                r.push(self.nodes[i].copied());
            }
            i = i + 1;
        }
        assert(self.nodes@.take(self.nodes@.len() as int) =~= self.nodes@);
        r
    }

    /// The subnet without the nodes that were both removed and added back: they leave both the
    /// added and the removed nodes.
    pub fn without_duplicate_added_removed(self) -> (r: DecentralizedSubnet)
        ensures
            r.id == self.id,
            r.nodes == self.nodes,
            r.added_nodes@ == without_principals_of(self.added_nodes@, self.removed_nodes@),
            r.removed_nodes@ == without_principals_of(self.removed_nodes@, self.added_nodes@),
            r.comment == self.comment,
            r.run_log == self.run_log,
    {
        let added = filter_out_principals(&self.added_nodes, &self.removed_nodes);
        let removed = filter_out_principals(&self.removed_nodes, &self.added_nodes);
        DecentralizedSubnet { added_nodes: added, removed_nodes: removed, ..self }
    }
}


/// A copy of a list of texts.
pub fn copy_texts(v: &Vec<String>) -> (r: Vec<String>)
    ensures
        texts(r@) == texts(v@),
{
    let mut r: Vec<String> = Vec::new();
    let mut i: usize = 0;
    while i < v.len()
        invariant
            i <= v@.len(),
            texts(r@) == texts(v@).take(i as int),
        decreases v.len() - i,
    {
        let ghost before = r@;
        r.push(v[i].clone());
        assert(texts(r@) =~= texts(before).push(v@[i as int]@));
        assert(texts(r@) =~= texts(v@).take(i as int + 1));
        i = i + 1;
    }
    assert(texts(v@).take(v@.len() as int) =~= texts(v@));
    r
}


/// The view of a subnet: its principal, nodes, added and removed nodes, comment and run log.
pub type SubnetView = (Seq<char>, Seq<Node>, Seq<Node>, Seq<Node>, Option<Seq<char>>, Seq<Seq<char>>);

/// A subnet's principal, nodes, added and removed nodes, comment and run log.
pub open spec fn subnet_view(s: DecentralizedSubnet) -> SubnetView {
    (s.id@, s.nodes@, s.added_nodes@, s.removed_nodes@, crate::features::opt_view(s.comment), texts(s.run_log@))
}

/// The subnets whose nodes break a business rule (a penalty above zero).
pub open spec fn violating_subnets(subnets: Seq<DecentralizedSubnet>) -> Seq<SubnetView>
    decreases subnets.len(),
{
    if subnets.len() == 0 {
        Seq::empty()
    } else {
        let rest = violating_subnets(subnets.drop_last());
        let s = subnets.last();
        if business_rules(s.id@, s.nodes@).0 > 0 {
            rest.push(subnet_view(s))
        } else {
            rest
        }
    }
}

/// The subnets whose nodes break a business rule, in order.
pub fn subnets_with_business_rules_violations(subnets: &Vec<DecentralizedSubnet>) -> (r: Vec<DecentralizedSubnet>)
    requires
        forall|i: int| 0 <= i < subnets@.len() ==> #[trigger] subnets@[i].nodes@.len() * 100000 <= usize::MAX,
    ensures
        r@.map_values(|s: DecentralizedSubnet| subnet_view(s)) == violating_subnets(subnets@),
{
    let mut r: Vec<DecentralizedSubnet> = Vec::new();
    let mut i: usize = 0;
    assert(subnets@.take(0) =~= Seq::<DecentralizedSubnet>::empty());
    assert(r@.map_values(|s: DecentralizedSubnet| subnet_view(s)) =~= Seq::<SubnetView>::empty());
    while i < subnets.len()
        invariant
            i <= subnets@.len(),
            forall|i: int| 0 <= i < subnets@.len() ==> #[trigger] subnets@[i].nodes@.len() * 100000 <= usize::MAX,
            r@.map_values(|s: DecentralizedSubnet| subnet_view(s)) == violating_subnets(subnets@.take(i as int)),
        decreases subnets.len() - i,
    {
        let ghost t = subnets@.take(i as int + 1);
        assert(t.drop_last() =~= subnets@.take(i as int));
        assert(t.last() == subnets@[i as int]);
        let s = &subnets[i];
        let (penalty, _) = s.check_business_rules();
        if penalty > 0 {
            let ghost before = r@;
            let c = DecentralizedSubnet {
                id: s.id.clone(),
                nodes: copy_nodes(&s.nodes),
                added_nodes: copy_nodes(&s.added_nodes),
                removed_nodes: copy_nodes(&s.removed_nodes),
                comment: crate::features::clone_opt(&s.comment),
                run_log: copy_texts(&s.run_log),
            };
            r.push(c);
            assert(r@.map_values(|s: DecentralizedSubnet| subnet_view(s)) =~= before.map_values(
                |s: DecentralizedSubnet| subnet_view(s),
            ).push(subnet_view(subnets@[i as int])));
        }
        i = i + 1;
    }
    assert(subnets@.take(subnets@.len() as int) =~= subnets@);
    r
}


/// Whether a node with principal `p` is among `nodes`.
pub fn has_principal_pub(nodes: &Vec<Node>, p: &str) -> (r: bool)
    ensures
        r == principals(nodes@).contains(p@),
{
    has_principal(nodes, p)
}


/// The part of `s` before its first '-' (empty when it has none).
pub fn before_dash_pub(s: &str) -> (r: String)
    ensures
        r@ == before_dash(s@),
{
    before_dash_of(s)
}


/// Removing nodes leaves no more nodes than there were.
pub proof fn lemma_remove_each_len(nodes: Seq<Node>, rm: Seq<Node>)
    ensures
        remove_each(nodes, rm) matches Ok(p) ==> p.0.len() <= nodes.len(),
    decreases rm.len(),
{
    if rm.len() > 0 {
        lemma_remove_each_len(nodes, rm.drop_last());
        match remove_each(nodes, rm.drop_last()) {
            Ok(p) => {
                lemma_position_bounds(p.0, rm.last().principal@);
            },
            Err(_) => {},
        }
    }
}


/// Removing nodes removes at most as many nodes as asked.
pub proof fn lemma_remove_each_added_len(nodes: Seq<Node>, rm: Seq<Node>)
    ensures
        remove_each(nodes, rm) matches Ok(p) ==> p.1.len() == rm.len() && p.0.len() + p.1.len() == nodes.len(),
    decreases rm.len(),
{
    if rm.len() > 0 {
        lemma_remove_each_added_len(nodes, rm.drop_last());
        match remove_each(nodes, rm.drop_last()) {
            Ok(p) => {
                lemma_position_bounds(p.0, rm.last().principal@);
            },
            Err(_) => {},
        }
    }
}

} // verus!
