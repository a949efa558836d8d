//! A change of a subnet's membership: the nodes before and after, and the business-rule
//! penalties of each.
use vstd::prelude::*;
use crate::network::{principals, without_principals_of, DecentralizedSubnet};
use crate::rules::{business_rules, check_business_rules_for_subnet_with_nodes, texts};
use crate::subnet::{copy_nodes, str_eq, Node};

verus! {

/// A change of the membership of subnet `subnet_id`.
#[derive(Debug)]
pub struct SubnetChange {
    pub subnet_id: String,
    pub old_nodes: Vec<Node>,
    pub new_nodes: Vec<Node>,
    pub removed_nodes: Vec<Node>,
    pub added_nodes: Vec<Node>,
    pub penalties_before_change: (usize, Vec<String>),
    pub penalties_after_change: (usize, Vec<String>),
    pub comment: Option<String>,
    pub run_log: Vec<String>,
}

/// The view of penalties and messages.
pub open spec fn checks_view(c: (usize, Vec<String>)) -> (int, Seq<Seq<char>>) {
    (c.0 as int, texts(c.1@))
}

/// Whether a list of nodes is small enough for the business rules to be checked on it.
pub open spec fn checkable(nodes: Seq<Node>) -> bool {
    nodes.len() * 100000 <= usize::MAX
}

impl SubnetChange {
    /// The change with `nodes_to_add` appended to the new nodes; they become the added nodes,
    /// and both penalties are computed again.
    pub fn with_nodes(self, nodes_to_add: &Vec<Node>) -> (r: Self)
        requires
            checkable(self.old_nodes@),
            checkable(self.new_nodes@ + nodes_to_add@),
        ensures
            r.subnet_id == self.subnet_id,
            r.old_nodes == self.old_nodes,
            r.new_nodes@ == self.new_nodes@ + nodes_to_add@,
            r.added_nodes@ == nodes_to_add@,
            r.removed_nodes == self.removed_nodes,
            checks_view(r.penalties_before_change) == business_rules(self.subnet_id@, self.old_nodes@),
            checks_view(r.penalties_after_change) == business_rules(self.subnet_id@, self.new_nodes@ + nodes_to_add@),
            r.comment == self.comment,
            r.run_log == self.run_log,
    {
        let mut s = self;
        let mut extra = copy_nodes(nodes_to_add);
        s.new_nodes.append(&mut extra);
        let before = check_business_rules_for_subnet_with_nodes(s.subnet_id.as_str(), &s.old_nodes);
        let after = check_business_rules_for_subnet_with_nodes(s.subnet_id.as_str(), &s.new_nodes);
        SubnetChange {
            added_nodes: copy_nodes(nodes_to_add),
            penalties_before_change: before,
            penalties_after_change: after,
            ..s
        }
    }

    /// The change with `nodes_to_remove` appended to the removed nodes and taken out of the new
    /// nodes (nodes are the same when their principals are); both penalties are computed again.
    pub fn without_nodes(self, nodes_to_remove: &Vec<Node>) -> (r: Self)
        requires
            checkable(self.old_nodes@),
            checkable(self.new_nodes@),
        ensures
            r.subnet_id == self.subnet_id,
            r.old_nodes == self.old_nodes,
            r.new_nodes@ == without_principals_of(self.new_nodes@, nodes_to_remove@),
            r.removed_nodes@ == self.removed_nodes@ + nodes_to_remove@,
            r.added_nodes == self.added_nodes,
            checks_view(r.penalties_before_change) == business_rules(self.subnet_id@, self.old_nodes@),
            checks_view(r.penalties_after_change) == business_rules(
                self.subnet_id@,
                without_principals_of(self.new_nodes@, nodes_to_remove@),
            ),
            r.comment == self.comment,
            r.run_log == self.run_log,
    {
        let mut s = self;
        let mut extra = copy_nodes(nodes_to_remove);
        s.removed_nodes.append(&mut extra);
        let kept = crate::network::filter_out_principals(&s.new_nodes, nodes_to_remove);
        proof {
            lemma_filter_len(s.new_nodes@, nodes_to_remove@);
        }
        let before = check_business_rules_for_subnet_with_nodes(s.subnet_id.as_str(), &s.old_nodes);
        let after = check_business_rules_for_subnet_with_nodes(s.subnet_id.as_str(), &kept);
        SubnetChange { new_nodes: kept, penalties_before_change: before, penalties_after_change: after, ..s }
    }

    /// The added nodes.
    pub fn added(&self) -> (r: Vec<Node>)
        ensures
            r@ == self.added_nodes@,
    {
        copy_nodes(&self.added_nodes)
    }

    /// The removed nodes.
    pub fn removed(&self) -> (r: Vec<Node>)
        ensures
            r@ == self.removed_nodes@,
    {
        copy_nodes(&self.removed_nodes)
    }

    /// The subnet before the change: the old nodes, nothing added or removed, no run log.
    pub fn before(&self) -> (r: DecentralizedSubnet)
        ensures
            r.id@ == self.subnet_id@,
            r.nodes@ == self.old_nodes@,
            r.added_nodes@.len() == 0,
            r.removed_nodes@.len() == 0,
            r.comment == self.comment,
            r.run_log@.len() == 0,
    {
        DecentralizedSubnet {
            id: self.subnet_id.clone(),
            nodes: copy_nodes(&self.old_nodes),
            added_nodes: Vec::new(),
            removed_nodes: Vec::new(),
            comment: crate::features::clone_opt(&self.comment),
            run_log: Vec::new(),
        }
    }

    /// The subnet after the change: the new nodes, the added and removed nodes, and the run log.
    pub fn after(&self) -> (r: DecentralizedSubnet)
        ensures
            r.id@ == self.subnet_id@,
            r.nodes@ == self.new_nodes@,
            r.added_nodes@ == self.added_nodes@,
            r.removed_nodes@ == self.removed_nodes@,
            r.comment == self.comment,
            texts(r.run_log@) == texts(self.run_log@),
    {
        DecentralizedSubnet {
            id: self.subnet_id.clone(),
            nodes: copy_nodes(&self.new_nodes),
            added_nodes: copy_nodes(&self.added_nodes),
            removed_nodes: copy_nodes(&self.removed_nodes),
            comment: crate::features::clone_opt(&self.comment),
            run_log: crate::network::copy_texts(&self.run_log),
        }
    }
}

proof fn lemma_filter_len(nodes: Seq<Node>, others: Seq<Node>)
    ensures
        without_principals_of(nodes, others).len() <= nodes.len(),
{
    broadcast use vstd::seq_lib::group_filter_ensures;
}

} // verus!
