//! A request to change a subnet's membership: which nodes may join, must join, must leave, and
//! how many to add and remove.
use vstd::prelude::*;
use crate::change::{checks_view, SubnetChange};
use crate::features::opt_view;
use crate::network::{
    list_text, principals, remove_each, short_principals, subnet_without, without_principals_of, CordonedFeature,
    DecentralizedSubnet, NetworkError,
};
use crate::resize::{extension_lines, extension_penalty, greedy_added, greedy_removed, remaining, resize_comment};
use crate::removal::{health_of, lookup_health_pub, matches_value};
use crate::rules::{business_rules, check_business_rules_for_subnet_with_nodes, texts};
use crate::score::MAX_COEFFICIENT;
use crate::subnet::{copy_nodes, str_eq, HealthStatus, Node};

verus! {

/// A request to change the membership of `subnet`.
#[derive(Debug, Clone)]
pub struct SubnetChangeRequest {
    pub subnet: DecentralizedSubnet,
    pub available_nodes: Vec<Node>,
    pub include_nodes: Vec<Node>,
    pub nodes_to_remove: Vec<Node>,
    pub nodes_to_keep: Vec<Node>,
}

/// Whether node `n` has a cordoned value of a feature.
pub open spec fn is_cordoned(n: Node, cordoned: Seq<CordonedFeature>) -> bool {
    exists|j: int| 0 <= j < cordoned.len() && n.features.spec_get(#[trigger] cordoned[j].feature) == Some(cordoned[j].value@)
}

/// The nodes of `nodes` that are known to be healthy and have no cordoned feature value.
pub open spec fn usable(nodes: Seq<Node>, healths: Seq<(String, HealthStatus)>, cordoned: Seq<CordonedFeature>) -> Seq<Node> {
    nodes.filter(|n: Node| health_of(healths, n.principal@) == HealthStatus::Healthy && !is_cordoned(n, cordoned))
}

fn cordoned_node(n: &Node, cordoned: &Vec<CordonedFeature>) -> (r: bool)
    ensures
        r == is_cordoned(*n, cordoned@),
{
    let mut j: usize = 0;
    while j < cordoned.len()
        invariant
            j <= cordoned@.len(),
            forall|k: int| 0 <= k < j ==> n.features.spec_get(#[trigger] cordoned@[k].feature) != Some(cordoned@[k].value@),
        decreases cordoned.len() - j,
    {
        match n.get_feature(&cordoned[j].feature) {
            Some(v) => {
                if v == cordoned[j].value {
                    return true;
                }
            },
            None => {},
        }
        j = j + 1;
    }
    false
}

/// The usable nodes of `nodes` (see [`usable`]).
pub fn usable_nodes(nodes: &Vec<Node>, healths: &Vec<(String, HealthStatus)>, cordoned: &Vec<CordonedFeature>) -> (r: Vec<Node>)
    ensures
        r@ == usable(nodes@, healths@, cordoned@),
{
    let mut r: Vec<Node> = Vec::new();
    let mut i: usize = 0;
    assert(usable(nodes@.take(0), healths@, cordoned@) =~= Seq::<Node>::empty()) by {
        reveal(Seq::filter);
    }
    while i < nodes.len()
        invariant
            i <= nodes@.len(),
            r@ == usable(nodes@.take(i as int), healths@, cordoned@),
        decreases nodes.len() - i,
    {
        let ghost t = nodes@.take(i as int + 1);
        assert(t.drop_last() =~= nodes@.take(i as int));
        assert(t.last() == nodes@[i as int]);
        let keep = lookup_health_pub(healths, nodes[i].principal.as_str()) == HealthStatus::Healthy && !cordoned_node(
            &nodes[i],
            cordoned,
        );
        assert(usable(t, healths@, cordoned@) == if keep {
            usable(nodes@.take(i as int), healths@, cordoned@).push(nodes@[i as int])
        } else {
            usable(nodes@.take(i as int), healths@, cordoned@)
        }) by {
            reveal(Seq::filter);
        }
        if keep {
            r.push(nodes[i].copied());
        }
        i = i + 1;
    }
    assert(nodes@.take(nodes@.len() as int) =~= nodes@);
    r
}


/// Whether a change adding `add` and removing `remove` nodes is small enough to be computed.
pub open spec fn fits(req: SubnetChangeRequest, add: int, remove: int) -> bool {
    let n = req.subnet.nodes@.len() + req.include_nodes@.len() + add + remove + 1;
    &&& n * 100000 <= usize::MAX
    &&& n <= MAX_COEFFICIENT
}

/// Whether `rem` is what the removal step of a resize takes out of subnet `id` with the nodes
/// `nodes` when asked for `k` nodes: `k` nodes of distinct principals, each one of the subnet's,
/// each the best to remove of the nodes left before it (see [`greedy_removed`]).
pub open spec fn removal_choice(id: Seq<char>, nodes: Seq<Node>, all: Seq<Node>, rem: Seq<Node>, k: nat) -> bool {
    &&& rem.len() == k
    &&& greedy_removed(id, nodes, all, rem)
    &&& principals(rem).no_duplicates()
    &&& forall|j: int| 0 <= j < rem.len() ==> principals(nodes).contains(#[trigger] principals(rem)[j])
}

/// The nodes that the extension step of a resize chooses from once `rem` left the subnet: the
/// available nodes that are not included, then the subnet's removed nodes, each kept when it is
/// healthy and not cordoned.
pub open spec fn extension_pool(
    req: SubnetChangeRequest,
    rem: Seq<Node>,
    healths: Seq<(String, HealthStatus)>,
    cordoned: Seq<CordonedFeature>,
) -> Seq<Node> {
    usable(
        usable(without_principals_of(req.available_nodes@, req.include_nodes@), healths, cordoned) + (
        req.subnet.removed_nodes@ + rem),
        healths,
        cordoned,
    )
}

/// The run log of a resize whose subnet ends with the removed nodes `removed`: the subnet's log,
/// then a line on the included nodes and one on the removed nodes, each when there are any.
pub open spec fn resize_log(req: SubnetChangeRequest, removed: Seq<Node>) -> Seq<Seq<char>> {
    let with_included = if req.include_nodes@.len() == 0 {
        texts(req.subnet.run_log@)
    } else {
        texts(req.subnet.run_log@).push(
            "Including user-provided nodes "@ + list_text(short_principals(req.include_nodes@), true),
        )
    };
    if removed.len() == 0 {
        with_included
    } else {
        with_included.push("Removed nodes from subnet "@ + list_text(principals(removed), false))
    }
}

/// What a resize that records `old` as the old nodes and adds `add` nodes returns, once its
/// removal step took `rem` out of the subnet: the included nodes join, the nodes to remove leave
/// (an error names the first that is not found), and `add` nodes of distinct principals from
/// [`extension_pool`] join, each the best to add of those left (see [`greedy_added`]; an error
/// when the pool has fewer distinct principals); nodes both added and removed are dropped from
/// both lists, and the comment is that of the extension.
pub open spec fn resize_after_removal(
    req: SubnetChangeRequest,
    old: Seq<Node>,
    add: nat,
    rem: Seq<Node>,
    healths: Seq<(String, HealthStatus)>,
    cordoned: Seq<CordonedFeature>,
    all: Seq<Node>,
    r: Result<SubnetChange, NetworkError>,
) -> bool {
    match remove_each(remaining(req.subnet.nodes@, rem) + req.include_nodes@, req.nodes_to_remove@) {
        Err(p) => r matches Err(NetworkError::NodeNotFound(q)) && q@ == p,
        Ok(t) => {
            let pool = extension_pool(req, rem, healths, cordoned);
            if add > principals(pool).to_set().len() {
                r matches Err(NetworkError::ResizeFailed(_))
            } else {
                r matches Ok(c) && {
                    let removed = req.subnet.removed_nodes@ + rem + t.1;
                    let added = c.new_nodes@.skip(t.0.len() as int);
                    let all_added = req.subnet.added_nodes@ + req.include_nodes@ + added;
                    &&& c.subnet_id == req.subnet.id
                    &&& c.old_nodes@ == old
                    &&& c.new_nodes@.len() == t.0.len() + add
                    &&& c.new_nodes@.take(t.0.len() as int) == t.0
                    &&& principals(added).no_duplicates()
                    &&& forall|j: int| 0 <= j < added.len() ==> principals(pool).contains(#[trigger] principals(added)[j])
                    &&& forall|j: int| 0 <= j < added.len() ==> pool.contains(#[trigger] added[j])
                    &&& greedy_added(req.subnet.id@, t.0, pool, all, added)
                    &&& opt_view(c.comment) == resize_comment(
                        "extension with "@,
                        "extension"@,
                        add,
                        extension_penalty(req.subnet.id@, t.0, added),
                        extension_lines(req.subnet.id@, t.0, added, add),
                    )
                    &&& c.added_nodes@ == without_principals_of(all_added, removed)
                    &&& c.removed_nodes@ == without_principals_of(removed, all_added)
                    &&& checks_view(c.penalties_before_change) == business_rules(req.subnet.id@, req.subnet.nodes@)
                    &&& checks_view(c.penalties_after_change) == business_rules(req.subnet.id@, c.new_nodes@)
                    &&& texts(c.run_log@) == resize_log(req, removed)
                }
            }
        },
    }
}

/// What a resize of `req` that records `old` as the old nodes, removes `k` nodes and adds `add`
/// returns: an error when the subnet has fewer than `k` distinct principals; otherwise, for the
/// nodes that its removal step chose, what [`resize_after_removal`] says.
pub open spec fn resize_outcome(
    req: SubnetChangeRequest,
    old: Seq<Node>,
    add: nat,
    k: nat,
    healths: Seq<(String, HealthStatus)>,
    cordoned: Seq<CordonedFeature>,
    all: Seq<Node>,
    r: Result<SubnetChange, NetworkError>,
) -> bool {
    if k > principals(req.subnet.nodes@).to_set().len() {
        r matches Err(NetworkError::ResizeFailed(_))
    } else {
        exists|rem: Seq<Node>|
            removal_choice(req.subnet.id@, req.subnet.nodes@, all, rem, k) && #[trigger] resize_after_removal(
                req,
                old,
                add,
                rem,
                healths,
                cordoned,
                all,
                r,
            )
    }
}

/// With nothing to remove by choice, the removal step removes nothing.
pub proof fn lemma_no_removal_choice(id: Seq<char>, nodes: Seq<Node>, all: Seq<Node>, rem: Seq<Node>)
    requires
        removal_choice(id, nodes, all, rem, 0),
    ensures
        rem == Seq::<Node>::empty(),
        remaining(nodes, rem) == nodes,
{
    assert(rem =~= Seq::<Node>::empty());
    crate::resize::lemma_remaining_all(nodes);
}

/// What picks out nodes: a node picks out the nodes with its principal; a text picks out the
/// nodes whose principal or one of whose feature values it names (see [`matches_value`]).
pub trait Identifies {
    /// Whether this picks out node `n`.
    spec fn identifies(&self, n: Node) -> bool;

    /// Whether this picks out node `other`.
    fn eq(&self, other: &Node) -> (r: bool)
        ensures
            r == self.identifies(*other),
    ;

    /// Whether this picks out node `other` (the same as [`Identifies::eq`]).
    fn partial_eq(&self, other: &Node) -> (r: bool)
        ensures
            r == self.identifies(*other),
    ;
}

impl Identifies for String {
    open spec fn identifies(&self, n: Node) -> bool {
        matches_value(n, self@)
    }

    fn eq(&self, other: &Node) -> (r: bool) {
        other.matches_feature_value(self.as_str())
    }

    fn partial_eq(&self, other: &Node) -> (r: bool) {
        other.matches_feature_value(self.as_str())
    }
}

impl Identifies for Node {
    open spec fn identifies(&self, n: Node) -> bool {
        n.principal@ == self.principal@
    }

    fn eq(&self, other: &Node) -> (r: bool) {
        str_eq(self.principal.as_str(), other.principal.as_str())
    }

    fn partial_eq(&self, other: &Node) -> (r: bool) {
        str_eq(self.principal.as_str(), other.principal.as_str())
    }
}

/// Whether one of `ids` picks out node `n`.
pub open spec fn any_identifies<T: Identifies>(ids: Seq<T>, n: Node) -> bool {
    exists|j: int| 0 <= j < ids.len() && #[trigger] ids[j].identifies(n)
}

/// The nodes of `nodes` that one of `ids` picks out (`picked`) or none does (not `picked`).
pub open spec fn picked_out<T: Identifies>(nodes: Seq<Node>, ids: Seq<T>, picked: bool) -> Seq<Node>
    decreases nodes.len(),
{
    if nodes.len() == 0 {
        Seq::empty()
    } else {
        let r = picked_out(nodes.drop_last(), ids, picked);
        if any_identifies(ids, nodes.last()) == picked {
            r.push(nodes.last())
        } else {
            r
        }
    }
}

/// Whether one of `ids` picks out node `n`.
pub fn match_any<T: Identifies>(ids: &Vec<T>, n: &Node) -> (r: bool)
    ensures
        r == any_identifies(ids@, *n),
{
    let mut j: usize = 0;
    while j < ids.len()
        invariant
            j <= ids@.len(),
            forall|k: int| 0 <= k < j ==> !(#[trigger] ids@[k].identifies(*n)),
        decreases ids.len() - j,
    {
        if Identifies::eq(&ids[j], n) {
            return true;
        }
        j = j + 1;
    }
    false
}

/// The nodes of `nodes` that one of `ids` picks out, or that none does (see [`picked_out`]).
fn pick_out<T: Identifies>(nodes: &Vec<Node>, ids: &Vec<T>, picked: bool) -> (r: Vec<Node>)
    ensures
        r@ == picked_out(nodes@, ids@, picked),
{
    let mut r: Vec<Node> = Vec::new();
    let mut i: usize = 0;
    while i < nodes.len()
        invariant
            i <= nodes@.len(),
            r@ == picked_out(nodes@.take(i as int), ids@, picked),
        decreases nodes.len() - i,
    {
        let ghost t = nodes@.take(i as int + 1);
        assert(t.drop_last() =~= nodes@.take(i as int));
        assert(t.last() == nodes@[i as int]);
        if match_any(ids, &nodes[i]) == picked {
            r.push(nodes[i].copied());
        }
        i = i + 1;
    }
    assert(nodes@.take(nodes@.len() as int) =~= nodes@);
    r
}

impl SubnetChangeRequest {
    /// A request.
    pub fn new(
        subnet: DecentralizedSubnet,
        available_nodes: Vec<Node>,
        include_nodes: Vec<Node>,
        nodes_to_remove: Vec<Node>,
        nodes_to_keep: Vec<Node>,
    ) -> (r: Self)
        ensures
            r.subnet == subnet,
            r.available_nodes == available_nodes,
            r.include_nodes == include_nodes,
            r.nodes_to_remove == nodes_to_remove,
            r.nodes_to_keep == nodes_to_keep,
    {
        SubnetChangeRequest { subnet, available_nodes, include_nodes, nodes_to_remove, nodes_to_keep }
    }

    /// The request that also keeps the subnet's nodes that one of `nodes` picks out.
    pub fn keeping_from_used<T: Identifies>(self, nodes: Vec<T>) -> (r: Self)
        ensures
            r.nodes_to_keep@ == self.nodes_to_keep@ + picked_out(self.subnet.nodes@, nodes@, true),
            r.subnet == self.subnet,
            r.available_nodes == self.available_nodes,
            r.include_nodes == self.include_nodes,
            r.nodes_to_remove == self.nodes_to_remove,
    {
        let mut keep = pick_out(&self.subnet.nodes, &nodes, true);
        let mut s = self;
        s.nodes_to_keep.append(&mut keep);
        s
    }

    /// The request that also removes the subnet's nodes that one of `nodes` picks out.
    pub fn removing_from_used<T: Identifies>(self, nodes: Vec<T>) -> (r: Self)
        ensures
            r.nodes_to_remove@ == self.nodes_to_remove@ + picked_out(self.subnet.nodes@, nodes@, true),
            r.subnet == self.subnet,
            r.available_nodes == self.available_nodes,
            r.include_nodes == self.include_nodes,
            r.nodes_to_keep == self.nodes_to_keep,
    {
        let mut rm = pick_out(&self.subnet.nodes, &nodes, true);
        let mut s = self;
        s.nodes_to_remove.append(&mut rm);
        s
    }

    /// The request whose included nodes are the available nodes that one of `nodes` picks out.
    pub fn including_from_available<T: Identifies>(self, nodes: Vec<T>) -> (r: Self)
        ensures
            r.include_nodes@ == picked_out(self.available_nodes@, nodes@, true),
            r.subnet == self.subnet,
            r.available_nodes == self.available_nodes,
            r.nodes_to_remove == self.nodes_to_remove,
            r.nodes_to_keep == self.nodes_to_keep,
    {
        let include_nodes = pick_out(&self.available_nodes, &nodes, true);
        SubnetChangeRequest { include_nodes, ..self }
    }

    /// The request whose available nodes are those that none of `nodes` picks out.
    pub fn excluding_from_available<T: Identifies>(self, nodes: Vec<T>) -> (r: Self)
        ensures
            r.available_nodes@ == picked_out(self.available_nodes@, nodes@, false),
            r.subnet == self.subnet,
            r.include_nodes == self.include_nodes,
            r.nodes_to_remove == self.nodes_to_remove,
            r.nodes_to_keep == self.nodes_to_keep,
    {
        let available_nodes = pick_out(&self.available_nodes, &nodes, false);
        SubnetChangeRequest { available_nodes, ..self }
    }

    /// A copy of the subnet to change.
    pub fn subnet(&self) -> (r: DecentralizedSubnet)
        ensures
            r.id == self.subnet.id,
            r.nodes@ == self.subnet.nodes@,
            r.added_nodes@ == self.subnet.added_nodes@,
            r.removed_nodes@ == self.subnet.removed_nodes@,
            r.comment == self.subnet.comment,
            texts(r.run_log@) == texts(self.subnet.run_log@),
    {
        self.subnet.copied()
    }

    /// The request with the available nodes `nodes`.
    pub fn with_custom_available_nodes(self, nodes: Vec<Node>) -> (r: Self)
        ensures
            r == (SubnetChangeRequest { available_nodes: nodes, ..self }),
    {
        SubnetChangeRequest { available_nodes: nodes, ..self }
    }

    /// Removes `how_many_nodes_to_remove` nodes with [`DecentralizedSubnet::subnet_with_fewer_nodes`],
    /// then adds the included nodes, takes out the nodes to remove, and adds
    /// `how_many_nodes_to_add` nodes with [`DecentralizedSubnet::subnet_with_more_nodes`] from
    /// the available nodes that are not included, healthy and not cordoned, and the removed
    /// nodes that are healthy and not cordoned; nodes both removed and added back are dropped
    /// from both lists. The change records the subnet's nodes before and after, and the
    /// business-rule penalties of each. It fails when the subnet has fewer distinct principals
    /// than the nodes to remove, when a node to remove is not in the subnet, and when fewer
    /// distinct principals than the nodes to add are left to choose from (see
    /// [`resize_outcome`]).
    #[verifier::loop_isolation(false)]
    pub fn resize(
        &self,
        how_many_nodes_to_add: usize,
        how_many_nodes_to_remove: usize,
        how_many_nodes_unhealthy: usize,
        health_of_nodes: &Vec<(String, HealthStatus)>,
        cordoned_features: &Vec<CordonedFeature>,
        all_nodes: &Vec<Node>,
    ) -> (r: Result<SubnetChange, NetworkError>)
        requires
            fits(*self, how_many_nodes_to_add as int, how_many_nodes_to_remove as int),
        ensures
            resize_outcome(
                *self,
                self.subnet.nodes@,
                how_many_nodes_to_add as nat,
                how_many_nodes_to_remove as nat,
                health_of_nodes@,
                cordoned_features@,
                all_nodes@,
                r,
            ),
            r matches Ok(c) ==> {
                &&& c.subnet_id == self.subnet.id
                &&& c.old_nodes@ == self.subnet.nodes@
                &&& checks_view(c.penalties_before_change) == business_rules(self.subnet.id@, self.subnet.nodes@)
                &&& checks_view(c.penalties_after_change) == business_rules(self.subnet.id@, c.new_nodes@)
                &&& c.new_nodes@.len() <= self.subnet.nodes@.len() + self.include_nodes@.len() + how_many_nodes_to_add
                &&& c.added_nodes@.len() <= self.subnet.added_nodes@.len() + self.include_nodes@.len() + how_many_nodes_to_add
            },
    {
        let ghost n = self.subnet.nodes@.len() + self.include_nodes@.len() + how_many_nodes_to_add + how_many_nodes_to_remove + 1;
        assert((self.subnet.nodes@.len() + 1) * 100000 <= n * 100000);
        let candidates = crate::network::filter_out_principals(&self.available_nodes, &self.include_nodes);
        let available = usable_nodes(&candidates, health_of_nodes, cordoned_features);
        let subnet = DecentralizedSubnet {
            id: self.subnet.id.clone(),
            nodes: copy_nodes(&self.subnet.nodes),
            added_nodes: copy_nodes(&self.subnet.added_nodes),
            removed_nodes: copy_nodes(&self.subnet.removed_nodes),
            comment: crate::features::clone_opt(&self.subnet.comment),
            run_log: crate::network::copy_texts(&self.subnet.run_log),
        };
        let ghost mut rem: Seq<Node> = Seq::empty();
        let r0 = self.subnet.removed_nodes.len();
        let resized = if how_many_nodes_to_remove > 0 {
            match subnet.subnet_with_fewer_nodes(how_many_nodes_to_remove, all_nodes) {
                Ok(s) => {
                    proof {
                        rem = s.removed_nodes@.skip(r0 as int);
                        assert(s.removed_nodes@ =~= s.removed_nodes@.take(r0 as int) + rem);
                    }
                    s
                },
                Err(e) => {
                    return Err(NetworkError::ResizeFailed(e));
                },
            }
        } else {
            proof {
                crate::resize::lemma_remaining_all(self.subnet.nodes@);
                assert(subnet.removed_nodes@ =~= self.subnet.removed_nodes@ + rem);
                assert(principals(rem) =~= Seq::<Seq<char>>::empty());
            }
            subnet
        };
        let ghost k = how_many_nodes_to_remove as nat;
        let ghost add = how_many_nodes_to_add as nat;
        let ghost h = health_of_nodes@;
        let ghost cf = cordoned_features@;
        assert(removal_choice(self.subnet.id@, self.subnet.nodes@, all_nodes@, rem, k));
        assert(resized.nodes@ == remaining(self.subnet.nodes@, rem));
        assert(resized.removed_nodes@ == self.subnet.removed_nodes@ + rem);
        assert(resized.added_nodes@ == self.subnet.added_nodes@);
        assert(texts(resized.run_log@) == texts(self.subnet.run_log@));
        assert(resized.id == self.subnet.id);
        assert(k <= principals(self.subnet.nodes@).to_set().len());
        let ghost m = resized.nodes@.len();
        proof {
            broadcast use vstd::seq_lib::group_filter_ensures;
        }
        assert(m <= self.subnet.nodes@.len());
        let mut pool = copy_nodes(&available);
        let mut newly_removed = copy_nodes(&resized.removed_nodes);
        pool.append(&mut newly_removed);
        let pool = usable_nodes(&pool, health_of_nodes, cordoned_features);
        assert(pool@ == extension_pool(*self, rem, h, cf));
        let with_included = resized.with_nodes(&self.include_nodes);
        let trimmed = match with_included.without_nodes(&self.nodes_to_remove) {
            Ok(s) => s,
            Err(e) => {
                let res: Result<SubnetChange, NetworkError> = Err(e);
                proof {
                    assert(resize_after_removal(*self, self.subnet.nodes@, add, rem, h, cf, all_nodes@, res));
                }
                return res;
            },
        };
        let ghost t = remove_each(with_included.nodes@, self.nodes_to_remove@)->Ok_0;
        proof {
            crate::network::lemma_remove_each_len(with_included.nodes@, self.nodes_to_remove@);
        }
        assert(trimmed.nodes@.len() <= self.subnet.nodes@.len() + self.include_nodes@.len());
        assert((trimmed.nodes@.len() + how_many_nodes_to_add + 1) * 100000 <= n * 100000);
        let extended = match trimmed.subnet_with_more_nodes(how_many_nodes_to_add, &pool, all_nodes) {
            Ok(s) => s,
            Err(e) => {
                let res: Result<SubnetChange, NetworkError> = Err(NetworkError::ResizeFailed(e));
                proof {
                    assert(resize_after_removal(*self, self.subnet.nodes@, add, rem, h, cf, all_nodes@, res));
                }
                return res;
            },
        };
        let final_subnet = extended.without_duplicate_added_removed();
        proof {
            broadcast use vstd::seq_lib::group_filter_ensures;
        }
        assert(final_subnet.added_nodes@.len() <= extended.added_nodes@.len());
        assert(final_subnet.nodes@.len() <= n);
        let before = check_business_rules_for_subnet_with_nodes(self.subnet.id.as_str(), &self.subnet.nodes);
        let after = check_business_rules_for_subnet_with_nodes(self.subnet.id.as_str(), &final_subnet.nodes);
        let res: Result<SubnetChange, NetworkError> = Ok(
            SubnetChange {
                subnet_id: self.subnet.id.clone(),
                old_nodes: copy_nodes(&self.subnet.nodes),
                new_nodes: final_subnet.nodes,
                removed_nodes: final_subnet.removed_nodes,
                added_nodes: final_subnet.added_nodes,
                penalties_before_change: before,
                penalties_after_change: after,
                comment: final_subnet.comment,
                run_log: final_subnet.run_log,
            },
        );
        proof {
            assert(trimmed.nodes@ == t.0);
            assert(trimmed.removed_nodes@ == self.subnet.removed_nodes@ + rem + t.1);
            assert(extended.added_nodes@ == self.subnet.added_nodes@ + self.include_nodes@ + extended.nodes@.skip(t.0.len() as int));
            assert(resize_after_removal(*self, self.subnet.nodes@, add, rem, h, cf, all_nodes@, res));
        }
        res
    }
}


proof fn lemma_fits_smaller(a: SubnetChangeRequest, b: SubnetChangeRequest, add: int, remove: int, add2: int)
    requires
        fits(a, add, remove),
        b.subnet.nodes@.len() <= a.subnet.nodes@.len(),
        b.include_nodes == a.include_nodes,
        0 <= add2 <= add,
        remove >= 0,
    ensures
        fits(b, add2, remove),
{
    let n = a.subnet.nodes@.len() + a.include_nodes@.len() + add + remove + 1;
    let m = b.subnet.nodes@.len() + b.include_nodes@.len() + add2 + remove + 1;
    assert(m * m <= n * n) by (nonlinear_arith)
        requires
            0 <= m <= n,
    ;
}

/// What [`SubnetChangeRequest::optimize`] returns for `req`, `count` and the replacements
/// `repl`: an error naming the first replacement that is not in the subnet; otherwise what a
/// resize of the request, whose subnet the replacements left, returns when it removes `count`
/// nodes, adds as many as left, and records the subnet's nodes before as the old nodes.
pub open spec fn optimize_outcome(
    req: SubnetChangeRequest,
    count: nat,
    repl: Seq<Node>,
    healths: Seq<(String, HealthStatus)>,
    cordoned: Seq<CordonedFeature>,
    all: Seq<Node>,
    r: Result<SubnetChange, NetworkError>,
) -> bool {
    match remove_each(req.subnet.nodes@, repl) {
        Err(p) => r matches Err(NetworkError::NodeNotFound(q)) && q@ == p,
        Ok(_) => exists|s: DecentralizedSubnet|
            #[trigger] subnet_without(req.subnet, repl, s) && resize_outcome(
                SubnetChangeRequest { subnet: s, ..req },
                req.subnet.nodes@,
                count + repl.len(),
                count,
                healths,
                cordoned,
                all,
                r,
            ),
    }
}

/// The outcome of a resize whose change then records `v` as its old nodes.
proof fn lemma_outcome_with_old(
    req: SubnetChangeRequest,
    v: Vec<Node>,
    add: nat,
    k: nat,
    healths: Seq<(String, HealthStatus)>,
    cordoned: Seq<CordonedFeature>,
    all: Seq<Node>,
    r1: Result<SubnetChange, NetworkError>,
    r2: Result<SubnetChange, NetworkError>,
)
    requires
        resize_outcome(req, req.subnet.nodes@, add, k, healths, cordoned, all, r1),
        r2 == (match r1 {
            Ok(c) => Ok(SubnetChange { old_nodes: v, ..c }),
            Err(e) => Err::<SubnetChange, NetworkError>(e),
        }),
    ensures
        resize_outcome(req, v@, add, k, healths, cordoned, all, r2),
{
    if k <= principals(req.subnet.nodes@).to_set().len() {
        let rem = choose|rem: Seq<Node>|
            removal_choice(req.subnet.id@, req.subnet.nodes@, all, rem, k) && #[trigger] resize_after_removal(
                req,
                req.subnet.nodes@,
                add,
                rem,
                healths,
                cordoned,
                all,
                r1,
            );
        assert(resize_after_removal(req, v@, add, rem, healths, cordoned, all, r2));
    }
}

impl SubnetChangeRequest {
    /// Replaces the nodes `replacements_unhealthy` and `optimize_count` more nodes: the
    /// replacements leave the subnet, then [`SubnetChangeRequest::resize`] removes
    /// `optimize_count` nodes and adds as many as left. The change's old nodes are the subnet's
    /// nodes before the replacements left.
    pub fn optimize(
        self,
        optimize_count: usize,
        replacements_unhealthy: &Vec<Node>,
        health_of_nodes: &Vec<(String, HealthStatus)>,
        cordoned_features: &Vec<CordonedFeature>,
        all_nodes: &Vec<Node>,
    ) -> (r: Result<SubnetChange, NetworkError>)
        requires
            fits(self, (optimize_count + replacements_unhealthy@.len()) as int, optimize_count as int),
        ensures
            optimize_outcome(self, optimize_count as nat, replacements_unhealthy@, health_of_nodes@, cordoned_features@, all_nodes@, r),
            r matches Ok(c) ==> c.subnet_id == self.subnet.id && c.old_nodes@ == self.subnet.nodes@ && checks_view(
                c.penalties_after_change,
            ) == business_rules(self.subnet.id@, c.new_nodes@) && c.new_nodes@.len() <= self.subnet.nodes@.len()
                + self.include_nodes@.len() + optimize_count + replacements_unhealthy@.len() && c.added_nodes@.len()
                <= self.subnet.added_nodes@.len() + self.include_nodes@.len() + optimize_count
                + replacements_unhealthy@.len(),
    {
        let old_nodes = copy_nodes(&self.subnet.nodes);
        let subnet = match self.subnet.without_nodes(replacements_unhealthy) {
            Ok(s) => s,
            Err(e) => {
                return Err(e);
            },
        };
        proof {
            crate::network::lemma_remove_each_len(self.subnet.nodes@, replacements_unhealthy@);
        }
        let req = SubnetChangeRequest { subnet, ..self };
        let add = optimize_count + replacements_unhealthy.len();
        proof {
            lemma_fits_smaller(self, req, add as int, optimize_count as int, add as int);
        }
        let r1 = req.resize(add, optimize_count, replacements_unhealthy.len(), health_of_nodes, cordoned_features, all_nodes);
        let ghost g1 = r1;
        let ghost v = old_nodes;
        let r2 = match r1 {
            Ok(c) => Ok(SubnetChange { old_nodes, ..c }),
            Err(e) => Err(e),
        };
        proof {
            lemma_outcome_with_old(req, v, add as nat, optimize_count as nat, health_of_nodes@, cordoned_features@, all_nodes@, g1, r2);
            assert(subnet_without(self.subnet, replacements_unhealthy@, req.subnet));
        }
        r2
    }

    /// Replaces every node of the subnet that is not among the nodes to keep (by principal): they
    /// leave the subnet, then [`SubnetChangeRequest::resize`] adds as many nodes as the subnet's
    /// removed nodes count. The change's old nodes are the subnet's nodes before they left.
    pub fn rescue(
        self,
        health_of_nodes: &Vec<(String, HealthStatus)>,
        cordoned_features: &Vec<CordonedFeature>,
        all_nodes: &Vec<Node>,
    ) -> (r: Result<SubnetChange, NetworkError>)
        requires
            fits(self, (self.subnet.nodes@.len() + self.subnet.removed_nodes@.len()) as int, 0),
        ensures
            match remove_each(self.subnet.nodes@, without_principals_of(self.subnet.nodes@, self.nodes_to_keep@)) {
                Err(p) => r matches Err(NetworkError::NodeNotFound(q)) && q@ == p,
                Ok(_) => exists|s: DecentralizedSubnet|
                    #[trigger] subnet_without(self.subnet, without_principals_of(self.subnet.nodes@, self.nodes_to_keep@), s)
                        && resize_outcome(
                        SubnetChangeRequest { subnet: s, ..self },
                        self.subnet.nodes@,
                        s.removed_nodes@.len(),
                        0,
                        health_of_nodes@,
                        cordoned_features@,
                        all_nodes@,
                        r,
                    ),
            },
            r matches Ok(c) ==> c.subnet_id == self.subnet.id && c.old_nodes@ == self.subnet.nodes@ && checks_view(
                c.penalties_after_change,
            ) == business_rules(self.subnet.id@, c.new_nodes@),
    {
        let old_nodes = copy_nodes(&self.subnet.nodes);
        let to_remove = crate::network::filter_out_principals(&self.subnet.nodes, &self.nodes_to_keep);
        let subnet = match self.subnet.without_nodes(&to_remove) {
            Ok(s) => s,
            Err(e) => {
                return Err(e);
            },
        };
        proof {
            crate::network::lemma_remove_each_len(self.subnet.nodes@, to_remove@);
            crate::network::lemma_remove_each_added_len(self.subnet.nodes@, to_remove@);
        }
        let removed = subnet.removed_nodes.len();
        proof {
            broadcast use vstd::seq_lib::group_filter_ensures;
        }
        assert(removed <= self.subnet.nodes@.len() + self.subnet.removed_nodes@.len());
        let req = SubnetChangeRequest { subnet, ..self };
        proof {
            lemma_fits_smaller(
                self,
                req,
                (self.subnet.nodes@.len() + self.subnet.removed_nodes@.len()) as int,
                0,
                removed as int,
            );
        }
        let r1 = req.resize(removed, 0, removed, health_of_nodes, cordoned_features, all_nodes);
        let ghost g1 = r1;
        let ghost v = old_nodes;
        let r2 = match r1 {
            Ok(c) => Ok(SubnetChange { old_nodes, ..c }),
            Err(e) => Err(e),
        };
        proof {
            lemma_outcome_with_old(req, v, removed as nat, 0, health_of_nodes@, cordoned_features@, all_nodes@, g1, r2);
            assert(subnet_without(self.subnet, to_remove@, req.subnet));
        }
        r2
    }

    /// The change that the request makes without adding or removing nodes by choice: it fails
    /// exactly when a node to remove is not in the subnet once the included nodes joined.
    pub fn evaluate(
        self,
        health_of_nodes: &Vec<(String, HealthStatus)>,
        cordoned_features: &Vec<CordonedFeature>,
        all_nodes: &Vec<Node>,
    ) -> (r: Result<SubnetChange, NetworkError>)
        requires
            fits(self, 0, 0),
        ensures
            resize_outcome(self, self.subnet.nodes@, 0, 0, health_of_nodes@, cordoned_features@, all_nodes@, r),
            (r is Ok) == (remove_each(self.subnet.nodes@ + self.include_nodes@, self.nodes_to_remove@) is Ok),
            r matches Ok(c) ==> c.subnet_id == self.subnet.id && c.old_nodes@ == self.subnet.nodes@ && checks_view(
                c.penalties_before_change,
            ) == business_rules(self.subnet.id@, self.subnet.nodes@) && checks_view(c.penalties_after_change)
                == business_rules(self.subnet.id@, c.new_nodes@),
    {
        let r = self.resize(0, 0, 0, health_of_nodes, cordoned_features, all_nodes);
        proof {
            let rem = choose|rem: Seq<Node>|
                removal_choice(self.subnet.id@, self.subnet.nodes@, all_nodes@, rem, 0) && #[trigger] resize_after_removal(
                    self,
                    self.subnet.nodes@,
                    0,
                    rem,
                    health_of_nodes@,
                    cordoned_features@,
                    all_nodes@,
                    r,
                );
            lemma_no_removal_choice(self.subnet.id@, self.subnet.nodes@, all_nodes@, rem);
        }
        r
    }
}

/// The nodes still available once the pool is narrowed to the nodes that one of `only` picks out
/// (when `only` is not empty).
pub open spec fn pool_of(available: Seq<Node>, only: Seq<String>) -> Seq<Node> {
    if only.len() > 0 {
        picked_out(available, only, true)
    } else {
        available
    }
}

proof fn lemma_picked_out_len<T: Identifies>(nodes: Seq<Node>, ids: Seq<T>, picked: bool)
    ensures
        picked_out(nodes, ids, picked).len() <= nodes.len(),
    decreases nodes.len(),
{
    if nodes.len() > 0 {
        lemma_picked_out_len(nodes.drop_last(), ids, picked);
    }
}

/// Whether `req` is the request from which [`create_subnet`] builds a subnet: an empty subnet
/// with principal "aaaaa-aa", the candidates (the pool, then the available nodes that one of
/// `add` picks out) that none of `exclude` picks out as available nodes, and the candidates that
/// one of `add` picks out as included nodes.
pub open spec fn creation_request(
    req: SubnetChangeRequest,
    available: Seq<Node>,
    add: Seq<String>,
    exclude: Seq<String>,
    only: Seq<String>,
) -> bool {
    let candidates = pool_of(available, only) + picked_out(available, add, true);
    &&& req.subnet.id@ == "aaaaa-aa"@
    &&& req.subnet.nodes@.len() == 0
    &&& req.subnet.added_nodes@.len() == 0
    &&& req.subnet.removed_nodes@.len() == 0
    &&& req.subnet.comment.is_none()
    &&& req.subnet.run_log@.len() == 0
    &&& req.available_nodes@ == picked_out(candidates, exclude, false)
    &&& req.include_nodes@ == picked_out(candidates, add, true)
    &&& req.nodes_to_remove@.len() == 0
    &&& req.nodes_to_keep@.len() == 0
}

/// The nodes among which [`create_subnet`] chooses the nodes that are not added by name: the
/// available candidates (see [`creation_request`]) that are not included, healthy and not
/// cordoned.
pub open spec fn creation_pool(
    available: Seq<Node>,
    add: Seq<String>,
    exclude: Seq<String>,
    only: Seq<String>,
    healths: Seq<(String, HealthStatus)>,
    cordoned: Seq<CordonedFeature>,
) -> Seq<Node> {
    let candidates = pool_of(available, only) + picked_out(available, add, true);
    usable(
        usable(without_principals_of(picked_out(candidates, exclude, false), picked_out(candidates, add, true)), healths, cordoned),
        healths,
        cordoned,
    )
}

/// A new subnet of `size` nodes: the available nodes that one of `add_nodes` picks out, and as
/// many more as needed, chosen (see [`SubnetChangeRequest::resize`]) among the available nodes
/// that one of `only_nodes` picks out (all of them when `only_nodes` is empty) and that none of
/// `exclude_nodes` picks out.
pub fn create_subnet(
    available_nodes: Vec<Node>,
    size: usize,
    add_nodes: Vec<String>,
    exclude_nodes: Vec<String>,
    only_nodes: Vec<String>,
    health_of_nodes: &Vec<(String, HealthStatus)>,
    cordoned_features: &Vec<CordonedFeature>,
    all_nodes: &Vec<Node>,
) -> (r: Result<SubnetChange, NetworkError>)
    requires
        add_nodes@.len() <= size,
        size - add_nodes@.len() > 0 ==> pool_of(available_nodes@, only_nodes@).len() >= size - add_nodes@.len(),
        (2 * available_nodes@.len() + size + 1) * 100000 <= usize::MAX,
        2 * available_nodes@.len() + size + 1 <= MAX_COEFFICIENT,
    ensures
        exists|req: SubnetChangeRequest|
            #[trigger] creation_request(req, available_nodes@, add_nodes@, exclude_nodes@, only_nodes@) && resize_outcome(
                req,
                Seq::empty(),
                (size - add_nodes@.len()) as nat,
                0,
                health_of_nodes@,
                cordoned_features@,
                all_nodes@,
                r,
            ),
        (r is Ok) == (size - add_nodes@.len() <= principals(
            creation_pool(available_nodes@, add_nodes@, exclude_nodes@, only_nodes@, health_of_nodes@, cordoned_features@),
        ).to_set().len()),
        r matches Ok(c) ==> c.subnet_id@ == "aaaaa-aa"@ && c.old_nodes@.len() == 0 && checks_view(c.penalties_after_change)
            == business_rules("aaaaa-aa"@, c.new_nodes@),
{
    let cache_added_nodes = pick_out(&available_nodes, &add_nodes, true);
    let mut available = if only_nodes.len() > 0 {
        pick_out(&available_nodes, &only_nodes, true)
    } else {
        available_nodes
    };
    let ghost pool = available@;
    let to_pick = size - add_nodes.len();
    proof {
        lemma_picked_out_len(available_nodes@, add_nodes@, true);
        lemma_picked_out_len(available_nodes@, only_nodes@, true);
    }
    let mut cached = cache_added_nodes;
    available.append(&mut cached);
    let ghost avail2 = available@;
    let ghost adds = add_nodes@;
    let req = SubnetChangeRequest {
        subnet: DecentralizedSubnet::new_with_subnet_id_and_nodes("aaaaa-aa".to_string(), Vec::new()),
        available_nodes: available,
        include_nodes: Vec::new(),
        nodes_to_remove: Vec::new(),
        nodes_to_keep: Vec::new(),
    };
    let req = req.including_from_available(add_nodes);
    let req = req.excluding_from_available(exclude_nodes);
    proof {
        lemma_picked_out_len(avail2, adds, true);
    }
    let ghost n = req.subnet.nodes@.len() + req.include_nodes@.len() + to_pick + 1;
    assert(n <= 2 * available_nodes@.len() + size + 1);
    let r = req.resize(to_pick, 0, 0, health_of_nodes, cordoned_features, all_nodes);
    proof {
        let h = health_of_nodes@;
        let cf = cordoned_features@;
        assert(creation_request(req, available_nodes@, add_nodes@, exclude_nodes@, only_nodes@));
        let rem = choose|rem: Seq<Node>|
            removal_choice(req.subnet.id@, req.subnet.nodes@, all_nodes@, rem, 0) && #[trigger] resize_after_removal(
                req,
                req.subnet.nodes@,
                to_pick as nat,
                rem,
                h,
                cf,
                all_nodes@,
                r,
            );
        lemma_no_removal_choice(req.subnet.id@, req.subnet.nodes@, all_nodes@, rem);
        assert(req.subnet.nodes@ =~= Seq::<Node>::empty());
        assert(remaining(req.subnet.nodes@, rem) + req.include_nodes@ =~= req.include_nodes@);
        assert(req.nodes_to_remove@ =~= Seq::<Node>::empty());
        assert(req.subnet.removed_nodes@ + rem =~= Seq::<Node>::empty());
        let first = usable(without_principals_of(req.available_nodes@, req.include_nodes@), h, cf);
        assert(first + (req.subnet.removed_nodes@ + rem) =~= first);
        assert(extension_pool(req, rem, h, cf) == creation_pool(available_nodes@, add_nodes@, exclude_nodes@, only_nodes@, h, cf));
    }
    r
}

} // verus!
