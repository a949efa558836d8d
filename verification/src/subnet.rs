//! Nodes, subnets, and the business rules that a subnet's nodes should meet.
use vstd::prelude::*;
use vstd::string::StrSliceExecFns;
use crate::features::{clone_opt, counts_of, NodeFeature, NodeFeatures, NUM_FEATURES};
use crate::nakamoto::seq_sum;
use crate::score::NakamotoScore;

verus! {

/// The data center of a node: its name and the name of its owner.
#[derive(Debug, Clone)]
pub struct NodeDataCenter {
    pub name: String,
    pub owner: String,
}

/// The health of a node.
#[derive(Debug, Clone, Copy, PartialEq, Eq, Structural)]
pub enum HealthStatus {
    Healthy,
    Degraded,
    Dead,
    Unknown,
}

/// A node, with what the decentralization rules read of it. Principals are in their text form.
#[derive(Debug, Clone)]
pub struct Node {
    pub principal: String,
    pub features: NodeFeatures,
    pub dfinity_owned: Option<bool>,
    pub operator: String,
    pub provider: String,
    pub datacenter: Option<NodeDataCenter>,
    pub subnet_id: Option<String>,
    pub proposal: Option<u64>,
    pub duplicates: Option<String>,
}

/// Whether two texts are equal.
pub fn str_eq(a: &str, b: &str) -> (r: bool)
    ensures
        r == (a@ == b@),
{
    let la = a.unicode_len();
    let lb = b.unicode_len();
    if la != lb {
        return false;
    }
    let mut i: usize = 0;
    while i < la
        invariant
            i <= la,
            la == a@.len(),
            lb == b@.len(),
            la == lb,
            forall|j: int| 0 <= j < i ==> a@[j] == b@[j],
        decreases la - i,
    {
        if a.get_char(i) != b.get_char(i) {
            return false;
        }
        i = i + 1;
    }
    assert(a@ =~= b@);
    true
}

/// The member states of the European Union, by their two-letter country codes.
pub open spec fn eu_countries() -> Seq<Seq<char>> {
    seq![
        "AT"@, "BE"@, "BG"@, "HR"@, "CY"@, "CZ"@, "DK"@, "EE"@, "FI"@, "FR"@, "DE"@, "GR"@, "HU"@, "IE"@,
        "IT"@, "LV"@, "LT"@, "LU"@, "MT"@, "NL"@, "PL"@, "PT"@, "RO"@, "SK"@, "SI"@, "ES"@, "SE"@,
    ]
}

fn eu_country_codes() -> (r: Vec<&'static str>)
    ensures
        r@.len() == eu_countries().len(),
        forall|i: int| 0 <= i < r@.len() ==> #[trigger] r@[i]@ == eu_countries()[i],
{
    let v = vec![
        "AT", "BE", "BG", "HR", "CY", "CZ", "DK", "EE", "FI", "FR", "DE", "GR", "HU", "IE", "IT", "LV", "LT",
        "LU", "MT", "NL", "PL", "PT", "RO", "SK", "SI", "ES", "SE",
    ];
    assert(v@.len() == eu_countries().len());
    assert forall|i: int| 0 <= i < v@.len() implies #[trigger] v@[i]@ == eu_countries()[i] by {
        assert(v@[i]@ == eu_countries()[i]);
    }
    v
}

impl Node {
    /// The value of a feature of the node.
    pub fn get_feature(&self, feature: &NodeFeature) -> (r: Option<String>)
        ensures
            crate::features::opt_view(r) == self.features.spec_get(*feature),
    {
        self.features.get(feature)
    }

    /// Whether the country with code `country` is a member of the European Union.
    pub fn is_country_from_eu(country: &str) -> (r: bool)
        ensures
            r == eu_countries().contains(country@),
    {
        let codes = eu_country_codes();
        let mut i: usize = 0;
        while i < codes.len()
            invariant
                i <= codes@.len(),
                codes@.len() == eu_countries().len(),
                forall|j: int| 0 <= j < codes@.len() ==> #[trigger] codes@[j]@ == eu_countries()[j],
                forall|j: int| 0 <= j < i ==> eu_countries()[j] != country@,
            decreases codes.len() - i,
        {
            if str_eq(codes[i], country) {
                assert(codes@[i as int]@ == eu_countries()[i as int]);
                return true;
            }
            assert(codes@[i as int]@ == eu_countries()[i as int]);
            i = i + 1;
        }
        false
    }

    /// A copy of the node.
    pub fn copied(&self) -> (r: Node)
        ensures
            r == *self,
    {
        Node {
            principal: self.principal.clone(),
            features: self.features.copied(),
            dfinity_owned: self.dfinity_owned,
            operator: self.operator.clone(),
            provider: self.provider.clone(),
            datacenter: match &self.datacenter {
                Some(dc) => Some(NodeDataCenter { name: dc.name.clone(), owner: dc.owner.clone() }),
                None => None,
            },
            subnet_id: clone_opt(&self.subnet_id),
            proposal: self.proposal,
            duplicates: clone_opt(&self.duplicates),
        }
    }
}

/// The features of each node.
pub open spec fn node_feature_seq(nodes: Seq<Node>) -> Seq<NodeFeatures> {
    nodes.map_values(|n: Node| n.features)
}

/// The features of each node.
pub fn features_of(nodes: &Vec<Node>) -> (r: Vec<NodeFeatures>)
    ensures
        r@ == node_feature_seq(nodes@),
{
    let mut r: Vec<NodeFeatures> = Vec::new();
    let mut i: usize = 0;
    while i < nodes.len()
        invariant
            i <= nodes@.len(),
            r@ == node_feature_seq(nodes@).take(i as int),
        decreases nodes.len() - i,
    {
        r.push(nodes[i].features.copied());
        i = i + 1;
        assert(r@ =~= node_feature_seq(nodes@).take(i as int));
    }
    assert(r@ =~= node_feature_seq(nodes@));
    r
}

/// The Nakamoto score of `nodes`.
pub fn nakamoto_score_of(nodes: &Vec<Node>) -> (r: NakamotoScore)
    ensures
        r.is_score_of(node_feature_seq(nodes@)),
        forall|i: int|
            0 <= i < NUM_FEATURES ==> #[trigger] r.controlled(i) <= seq_sum(counts_of(r.counts(i))) && seq_sum(
                counts_of(r.counts(i)),
            ) <= nodes@.len() && r.coef(i) <= nodes@.len(),
{
    let f = features_of(nodes);
    assert(f@.len() == nodes@.len());
    NakamotoScore::new_from_slice_node_features(&f)
}

/// A copy of a list of nodes.
pub fn copy_nodes(nodes: &Vec<Node>) -> (r: Vec<Node>)
    ensures
        r@ == nodes@,
{
    let mut r: Vec<Node> = Vec::new();
    let mut i: usize = 0;
    while i < nodes.len()
        invariant
            i <= nodes@.len(),
            r@ == nodes@.take(i as int),
        decreases nodes.len() - i,
    {
        r.push(nodes[i].copied());
        i = i + 1;
        assert(r@ =~= nodes@.take(i as int));
    }
    assert(r@ =~= nodes@);
    r
}

} // verus!
