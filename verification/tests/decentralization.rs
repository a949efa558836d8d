use dre::compare::ScoreDifference;
use dre::features::{NodeFeature, NodeFeatures};
use dre::nakamoto::nakamoto;
use dre::network::{DecentralizedSubnet, NetworkError};
use dre::removal::{NodeRemovalReason, NodesRemover};
use dre::rules::check_business_rules_for_subnet_with_nodes;
use dre::score::NakamotoScore;
use dre::subnet::{HealthStatus, Node};
use std::cmp::Ordering;

fn new_test_node(node_number: u64, features: NodeFeatures, dfinity_owned: bool) -> Node {
    Node {
        principal: format!("node{}-test", node_number),
        features,
        dfinity_owned: Some(dfinity_owned),
        operator: format!("operator{}", node_number),
        provider: format!("provider{}", node_number),
        datacenter: None,
        subnet_id: None,
        proposal: None,
        duplicates: None,
    }
}

fn new_test_nodes(feat_prefix: &str, num_nodes: usize, num_dfinity_nodes: usize) -> Vec<Node> {
    (0..num_nodes)
        .map(|i| new_test_node(i as u64, NodeFeatures::new_test_feature_set(&format!("{} {}", feat_prefix, i)), i < num_dfinity_nodes))
        .collect()
}

fn new_test_nodes_with_overrides(
    feat_prefix: &str,
    node_number_start: usize,
    num_nodes: usize,
    num_dfinity_nodes: usize,
    feature_to_override: (&NodeFeature, &[&str]),
) -> Vec<Node> {
    let mut subnet_nodes = Vec::new();
    for i in 0..num_nodes {
        let dfinity_owned = i < num_dfinity_nodes;
        let (override_feature, override_val) = feature_to_override;
        let node_features = match override_val.get(i) {
            Some(override_val) => {
                NodeFeatures::new_test_feature_set(&format!("{} {}", feat_prefix, i)).with_feature_value(override_feature, override_val)
            }
            None => NodeFeatures::new_test_feature_set(&format!("feat {}", i)),
        };
        subnet_nodes.push(new_test_node((node_number_start + i) as u64, node_features, dfinity_owned));
    }
    subnet_nodes
}

fn new_test_subnet(subnet_num: u64, num_nodes: usize, num_dfinity_nodes: usize) -> DecentralizedSubnet {
    DecentralizedSubnet::new_with_subnet_id_and_nodes(format!("subnet{}-test", subnet_num), new_test_nodes("feat", num_nodes, num_dfinity_nodes))
}

const EUROPEAN: &str = "bkfrj-6k62g-dycql-7h53p-atvkj-zg4to-gaogh-netha-ptybj-ntsgw-rqe";

#[test]
fn computes_nakamoto_scores() {
    assert_eq!((0, 0), nakamoto(&vec![])); // empty vector
    assert_eq!((1, 1), nakamoto(&vec![1])); // one actor controls 1 node
    assert_eq!((1, 3), nakamoto(&vec![3])); // one actor controls 3 nodes
    for actors in 1..100 {
        // If 3..100 actors have 1 nodes each, then > 1/3 of the nodes needs to be malicious
        assert_eq!((1 + (actors / 3), 1 + (actors / 3)), nakamoto(&std::iter::repeat(1).take(actors).collect::<Vec<usize>>()));
    }
    // 5/13 nodes need to be malicious
    assert_eq!((5, 5), nakamoto(&std::iter::repeat(1).take(13).collect::<Vec<usize>>()));
    assert_eq!((1, 3), nakamoto(&vec![1, 2, 3])); // one actor controls 3/6 nodes
    assert_eq!((1, 3), nakamoto(&vec![2, 3, 1])); // one actor controls 3/6 nodes
    assert_eq!((1, 3), nakamoto(&vec![3, 2, 1])); // one actor controls 3/6 nodes
    assert_eq!((2, 4), nakamoto(&vec![1, 2, 1, 2, 1])); // two top actors control 4/7 nodes
    assert_eq!((1, 5), nakamoto(&vec![1, 1, 2, 3, 5, 1])); // one top actor controls 5/13 nodes
    assert_eq!((2, 8), nakamoto(&vec![1, 1, 2, 3, 5, 1, 2])); // two top actors control 8/15 nodes
}

#[test]
fn score_from_features() {
    let features = vec![NodeFeatures::new_test_feature_set("foo")];
    let score = NakamotoScore::new_from_slice_node_features(&features);
    for f in NodeFeature::variants() {
        assert_eq!(score.score_feature(&f), 1);
        assert_eq!(score.controlled_nodes(&f), 1);
        assert_eq!(score.feature_value_counts(&f), vec![("foo".to_string(), 1)]);
    }
    assert_eq!(score.coefficient_sum(), 6);
    assert_eq!(score.coefficient_product(), 1);
}

#[test]
fn value_counts_are_sorted_by_count_then_value() {
    let countries = ["US", "CH", "US", "BE", "CH", "US"];
    let features: Vec<NodeFeatures> = countries
        .iter()
        .enumerate()
        .map(|(i, c)| NodeFeatures::new_test_feature_set(&format!("n{}", i)).with_feature_value(&NodeFeature::Country, c))
        .collect();
    let score = NakamotoScore::new_from_slice_node_features(&features);
    assert_eq!(
        score.feature_value_counts(&NodeFeature::Country),
        vec![("US".to_string(), 3), ("CH".to_string(), 2), ("BE".to_string(), 1)]
    );
    assert_eq!(score.feature_value_counts_max(&NodeFeature::Country), Some(("US".to_string(), 3)));
    // 6 nodes, a third is 2: the US alone controls more.
    assert_eq!(score.score_feature(&NodeFeature::Country), 1);
    assert_eq!(score.controlled_nodes(&NodeFeature::Country), 3);
    assert_eq!(score.critical_features_num_nodes(), vec![3, 3]);
    assert_eq!(score.critical_features_unique_actors(), vec![6, 3]);
    assert_eq!(score.low_coefficients(), 1);
}

#[test]
fn score_comparison_prefers_more_decentralized() {
    let spread = NakamotoScore::new_from_slice_node_features(&(0..7).map(|i| NodeFeatures::new_test_feature_set(&format!("x{}", i))).collect());
    let concentrated = NakamotoScore::new_from_slice_node_features(
        &(0..7)
            .map(|i| NodeFeatures::new_test_feature_set(&format!("x{}", i)).with_feature_value(&NodeFeature::Country, "US"))
            .collect(),
    );
    let (ord, why) = spread.describe_difference_from(&concentrated);
    assert_eq!(ord, Ordering::Greater);
    assert_eq!(why, ScoreDifference::AverageLog2);
    let (ord, _) = concentrated.describe_difference_from(&spread);
    assert_eq!(ord, Ordering::Less);
    let (ord, why) = spread.describe_difference_from(&spread);
    assert_eq!(ord, Ordering::Equal);
    assert_eq!(why, ScoreDifference::Equal);
    assert!(spread.eq(&spread.clone()));
    assert!(!spread.eq(&concentrated));
}

#[test]
fn test_business_rules_pass() {
    // If there is exactly one DFINITY-owned node in a subnet ==> pass
    for (n, d) in [(7, 1), (12, 1), (13, 1), (13, 2), (14, 1), (25, 1), (25, 2), (26, 1), (26, 2), (27, 2), (38, 2), (38, 3), (39, 3), (40, 3), (51, 3), (51, 4), (52, 4), (53, 4)] {
        let _ = new_test_subnet(0, n, d).check_business_rules();
    }
    assert_eq!(new_test_subnet(0, 7, 1).check_business_rules(), (0, vec![]));
}

#[test]
fn test_business_rules_fail() {
    // If there are no DFINITY-owned node in a small subnet ==> fail with an expected error message
    assert_eq!(
        new_test_subnet(0, 2, 0).check_business_rules(),
        (1000, vec!["Subnet should have 1 DFINITY-owned node(s) for subnet recovery, got 0".to_string()])
    );
}

#[test]
fn business_rules_small_subnet() {
    assert_eq!(new_test_subnet(0, 1, 0).check_business_rules(), (1, vec![]));
    assert_eq!(new_test_subnet(0, 0, 0).check_business_rules(), (1, vec![]));
}

#[test]
fn business_rules_country_dominance() {
    let nodes = new_test_nodes_with_overrides(
        "feat",
        0,
        13,
        1,
        (&NodeFeature::Country, &["US", "US", "US", "US", "US", "US", "US", "US", "US", "CH", "BE", "SG", "SI"]),
    );
    let (penalty, checks) = check_business_rules_for_subnet_with_nodes("subnet0-test", &nodes);
    assert_eq!(
        checks,
        vec![
            "Country US controls 9 of nodes, which is higher than target of 2 for the subnet. Applying penalty of 70.".to_string(),
            "NodeFeature country controls 9 of nodes, which is > 8 (2/3 of all) nodes".to_string(),
        ]
    );
    assert_eq!(penalty, 1070);
}

#[test]
fn business_rules_single_provider() {
    let nodes: Vec<Node> = (0..4)
        .map(|i| {
            new_test_node(i, NodeFeatures::new_test_feature_set(&format!("f{}", i)).with_feature_value(&NodeFeature::NodeProvider, "NP1"), i == 0)
        })
        .collect();
    let (penalty, checks) = check_business_rules_for_subnet_with_nodes("subnet0-test", &nodes);
    assert_eq!(
        checks,
        vec![
            "node_provider NP1 controls 4 of nodes, which is higher than target of 1 for the subnet. Applying penalty of 30.".to_string(),
            "A single Node Provider can halt the subnet".to_string(),
            "NodeFeature node_provider controls 4 of nodes, which is > 2 (2/3 of all) nodes".to_string(),
        ]
    );
    assert_eq!(penalty, 30 + 10000 + 2000);
}

#[test]
fn test_european_subnet_european_nodes_good() {
    let nodes = new_test_nodes_with_overrides("feat", 0, 7, 1, (&NodeFeature::Country, &["AT", "BE", "DE", "ES", "FR", "IT", "CH"]));
    assert_eq!(check_business_rules_for_subnet_with_nodes(EUROPEAN, &nodes), (0, vec![]));
}

#[test]
fn test_european_subnet_european_nodes_bad_1() {
    let nodes = new_test_nodes_with_overrides("feat", 0, 7, 1, (&NodeFeature::Country, &["AT", "BE", "DE", "ES", "FR", "IT", "IN"]));
    assert_eq!(
        check_business_rules_for_subnet_with_nodes(EUROPEAN, &nodes),
        (1000, vec!["European subnet has 1 non-European node(s)".to_string()])
    );
}

#[test]
fn test_european_subnet_european_nodes_bad_2() {
    let nodes = new_test_nodes_with_overrides("feat", 0, 7, 1, (&NodeFeature::Country, &["AT", "BE", "DE", "ES", "US", "IN", "AR"]));
    assert_eq!(
        check_business_rules_for_subnet_with_nodes(EUROPEAN, &nodes),
        (3000, vec!["European subnet has 3 non-European node(s)".to_string()])
    );
}

#[test]
fn linked_providers_are_penalized() {
    let mut nodes = new_test_nodes("feat", 3, 1);
    nodes[1].provider = "rpfvr-s3kuw-xdqrr-pvuuj-hc7hl-olytw-yxlie-fmr74-sr572-6gdqx-iqe".to_string();
    nodes[2].provider = "glrjs-2dbzh-owbdd-fpp5e-eweoz-nsuto-e3jmk-tl42c-wem4f-qfpfa-qqe".to_string();
    assert_eq!(
        check_business_rules_for_subnet_with_nodes("subnet0-test", &nodes),
        (10, vec!["NP Group: ZarBlue has 2 nodes in the subnet".to_string()])
    );
}

#[test]
fn eu_countries() {
    assert!(Node::is_country_from_eu("DE"));
    assert!(Node::is_country_from_eu("SE"));
    assert!(!Node::is_country_from_eu("CH"));
    assert!(!Node::is_country_from_eu("US"));
}

#[test]
fn subnet_without_and_with_nodes() {
    let subnet = new_test_subnet(0, 4, 1);
    let to_remove = vec![subnet.nodes[1].clone(), subnet.nodes[3].clone()];
    let smaller = subnet.without_nodes(&to_remove).unwrap();
    assert_eq!(smaller.nodes.iter().map(|n| n.principal.clone()).collect::<Vec<_>>(), vec!["node0-test", "node2-test"]);
    assert_eq!(smaller.removed_nodes.len(), 2);
    assert_eq!(smaller.run_log, vec!["Removed nodes from subnet [node1-test, node3-test]".to_string()]);
    let missing = vec![new_test_node(9, NodeFeatures::new_test_feature_set("x"), false)];
    assert_eq!(subnet.without_nodes(&missing).err(), Some(NetworkError::NodeNotFound("node9-test".to_string())));

    let bigger = smaller.clone().with_nodes(&to_remove);
    assert_eq!(bigger.nodes.len(), 4);
    assert_eq!(bigger.added_nodes.len(), 2);
    assert_eq!(bigger.run_log[1], "Including user-provided nodes [\"node1\", \"node3\"]");
    let cleaned = bigger.without_duplicate_added_removed();
    assert!(cleaned.added_nodes.is_empty());
    assert!(cleaned.removed_nodes.is_empty());
    assert_eq!(cleaned.nodes.len(), 4);
}

#[test]
fn dominant_actor_nodes() {
    let subnet = DecentralizedSubnet::new_with_subnet_id_and_nodes(
        "s".to_string(),
        new_test_nodes_with_overrides("feat", 0, 4, 1, (&NodeFeature::NodeProvider, &["NP1", "NP2", "NP1", "NP3"])),
    );
    let dominant = subnet.nodes_under_control_of_dominant_actor(&NodeFeature::NodeProvider);
    assert_eq!(dominant.iter().map(|n| n.principal.clone()).collect::<Vec<_>>(), vec!["node0-test", "node2-test"]);
}

#[test]
fn nodes_remover_reasons() {
    let mut nodes = new_test_nodes("feat", 5, 0);
    nodes[0].subnet_id = Some("s".to_string());
    nodes[1].duplicates = Some("other".to_string());
    nodes[4].features = nodes[4].features.clone().with_feature_value(&NodeFeature::DataCenter, "BadDC");
    let healths = vec![
        ("node0-test".to_string(), HealthStatus::Dead),
        ("node2-test".to_string(), HealthStatus::Dead),
        ("node3-test".to_string(), HealthStatus::Degraded),
    ];
    let remover = NodesRemover {
        no_auto: false,
        remove_degraded: false,
        extra_nodes_filter: vec!["baddc".to_string()],
        exclude: None,
        motivation: "Custom motivation".to_string(),
    };
    let (removals, motivation) = remover.remove_nodes(&healths, &nodes);
    let got: Vec<(String, NodeRemovalReason)> = removals.iter().map(|r| (r.node.principal.clone(), r.reason.clone())).collect();
    assert_eq!(
        got,
        vec![
            ("node1-test".to_string(), NodeRemovalReason::Duplicates("other".to_string())),
            ("node2-test".to_string(), NodeRemovalReason::Unhealthy(HealthStatus::Dead)),
            ("node4-test".to_string(), NodeRemovalReason::MatchedFilter("baddc".to_string())),
        ]
    );
    assert_eq!(motivation, "\n * Removing unhealthy nodes from the network, for redeployment\n * Custom motivation");

    let degraded_too = NodesRemover { remove_degraded: true, no_auto: false, extra_nodes_filter: vec![], exclude: Some(vec!["node2-TEST".to_string()]), motivation: String::new() };
    let (removals, _) = degraded_too.remove_nodes(&healths, &nodes);
    let got: Vec<String> = removals.iter().map(|r| r.node.principal.clone()).collect();
    assert_eq!(got, vec!["node1-test", "node3-test"]);
}

fn principal_text(bytes: &[u8]) -> String {
    // CRC-32 (IEEE) of the bytes, big-endian, before them; base32 without padding, in groups of 5.
    let mut crc: u32 = 0xffff_ffff;
    for b in bytes {
        crc ^= *b as u32;
        for _ in 0..8 {
            crc = if crc & 1 != 0 { (crc >> 1) ^ 0xedb8_8320 } else { crc >> 1 };
        }
    }
    crc ^= 0xffff_ffff;
    let mut data = crc.to_be_bytes().to_vec();
    data.extend_from_slice(bytes);
    let alphabet = b"abcdefghijklmnopqrstuvwxyz234567";
    let mut out = String::new();
    let mut buffer: u32 = 0;
    let mut bits = 0;
    for b in data {
        buffer = (buffer << 8) | b as u32;
        bits += 8;
        while bits >= 5 {
            out.push(alphabet[((buffer >> (bits - 5)) & 31) as usize] as char);
            bits -= 5;
        }
    }
    if bits > 0 {
        out.push(alphabet[((buffer << (5 - bits)) & 31) as usize] as char);
    }
    let chars: Vec<char> = out.chars().collect();
    chars.chunks(5).map(|c| c.iter().collect::<String>()).collect::<Vec<_>>().join("-")
}

fn test_id(n: u64, marker: u8) -> String {
    let mut bytes = n.to_le_bytes().to_vec();
    bytes.push(marker);
    bytes.push(0x01);
    principal_text(&bytes)
}

fn test_node_with_id(n: u64, features: NodeFeatures, dfinity_owned: bool) -> Node {
    let mut node = new_test_node(n, features, dfinity_owned);
    node.principal = test_id(n, 0xfd);
    node
}

fn candidate(node: &Node) -> dre::selection::ReplacementCandidate {
    dre::selection::ReplacementCandidate {
        node: node.clone(),
        score: NakamotoScore::new_from_slice_node_features(&vec![node.features.clone()]),
        penalty: 0,
        business_rules_log: vec![],
    }
}

#[test]
fn principal_text_of_anonymous() {
    assert_eq!(principal_text(&[4]), "2vxsx-fae");
    assert_eq!(test_id(1, 0xfd), "3jo2y-lqbaa-aaaaa-aaaap-2ai");
}

#[test]
fn test_empty_best_results() {
    let subnet = DecentralizedSubnet::new_with_subnet_id_and_nodes(test_id(1, 0xfc), vec![]);
    let result = dre::selection::choose_one_result(&vec![], &vec![], &subnet.nodes, &vec![]);
    assert!(result.is_none());
}

#[test]
fn test_best_results_already_in_subnet() {
    let node1 = test_node_with_id(1, NodeFeatures::new_test_feature_set("a"), true);
    let subnet = DecentralizedSubnet::new_with_subnet_id_and_nodes(test_id(1, 0xfc), vec![node1.clone()]);
    let cands = vec![candidate(&node1)];
    let all_nodes = vec![node1.clone()];
    let result = dre::selection::choose_one_result(&cands, &vec![0], &subnet.nodes, &all_nodes);
    // Should return the node already in the subnet.
    assert_eq!(cands[result.unwrap()].node.principal, node1.principal);
}

#[test]
fn test_none_of_best_results_in_current_nodes() {
    let node1 = test_node_with_id(1, NodeFeatures::new_test_feature_set("a"), true);
    let node2 = test_node_with_id(2, NodeFeatures::new_test_feature_set("a"), true);
    let node3 = test_node_with_id(3, NodeFeatures::new_test_feature_set("a"), true);
    let subnet = DecentralizedSubnet::new_with_subnet_id_and_nodes(test_id(1, 0xfc), vec![node1.clone()]);
    let cands = vec![candidate(&node2), candidate(&node3)];
    let all_nodes = vec![node1.clone(), node2.clone(), node3.clone()];
    let result = dre::selection::choose_one_result(&cands, &vec![0, 1], &subnet.nodes, &all_nodes);
    assert!(result.is_some());
}

#[test]
fn test_operator_percentage_tie_break() {
    let op1 = test_id(1, 0xfe);
    let op2 = test_id(2, 0xfe);
    let subnet_1_id = test_id(1, 0xfc);
    // op1 and op2 each have 2 nodes; op2 should be chosen because it has more unassigned nodes
    let mut node1 = test_node_with_id(1, NodeFeatures::new_test_feature_set("a"), true);
    node1.operator = op1.clone();
    node1.subnet_id = Some(subnet_1_id.clone());
    let mut node2 = test_node_with_id(2, NodeFeatures::new_test_feature_set("a"), true);
    node2.operator = op1.clone();
    let mut node3 = test_node_with_id(3, NodeFeatures::new_test_feature_set("a"), true);
    node3.operator = op2.clone();
    let mut node4 = test_node_with_id(4, NodeFeatures::new_test_feature_set("a"), true);
    node4.operator = op2.clone();
    let subnet = DecentralizedSubnet::new_with_subnet_id_and_nodes(subnet_1_id, vec![node1.clone()]);
    let cands = vec![candidate(&node2), candidate(&node3), candidate(&node4)];
    let all_nodes = vec![node1.clone(), node2.clone(), node3.clone(), node4.clone()];
    let result = dre::selection::choose_one_result(&cands, &vec![0, 1, 2], &subnet.nodes, &all_nodes);
    // op2 has no nodes assigned to subnets, so node3 from op2 should be picked
    assert_eq!(cands[result.unwrap()].node.principal, node3.principal);
}

#[test]
fn test_tie_break_with_equal_percentages() {
    let op1 = test_id(1, 0xfe);
    let op2 = test_id(2, 0xfe);
    let mut node1 = test_node_with_id(1, NodeFeatures::new_test_feature_set("a"), true);
    node1.operator = op1.clone();
    node1.subnet_id = Some(test_id(1, 0xfc));
    let mut node2 = test_node_with_id(2, NodeFeatures::new_test_feature_set("a"), true);
    node2.operator = op1.clone();
    let mut node3 = test_node_with_id(3, NodeFeatures::new_test_feature_set("a"), true);
    node3.operator = op2.clone();
    let mut node4 = test_node_with_id(4, NodeFeatures::new_test_feature_set("a"), true);
    node4.operator = op2.clone();
    let subnet = DecentralizedSubnet::new_with_subnet_id_and_nodes(test_id(1, 0xfc), vec![node1.clone()]);
    let cands = vec![candidate(&node2), candidate(&node3), candidate(&node4)];
    let all_nodes = vec![node1.clone(), node2.clone(), node3.clone(), node4.clone()];
    let result1 = dre::selection::choose_one_result(&cands, &vec![0, 1, 2], &subnet.nodes, &all_nodes);
    let result2 = dre::selection::choose_one_result(&cands, &vec![0, 1, 2], &subnet.nodes, &all_nodes);
    // Ensure deterministic selection with equal percentages.
    assert_eq!(result1, result2);
}

#[test]
fn test_deterministic_random_selection() {
    let node1 = test_node_with_id(1, NodeFeatures::new_test_feature_set("a"), true);
    let node2 = test_node_with_id(2, NodeFeatures::new_test_feature_set("a"), true);
    let node3 = test_node_with_id(3, NodeFeatures::new_test_feature_set("a"), true);
    let subnet = DecentralizedSubnet::new_with_subnet_id_and_nodes(test_id(1, 0xfc), vec![node1.clone()]);
    let cands = vec![candidate(&node2), candidate(&node3)];
    let all_nodes = vec![node1.clone(), node2.clone(), node3.clone()];
    let result1 = dre::selection::choose_one_result(&cands, &vec![0, 1], &subnet.nodes, &all_nodes);
    let result2 = dre::selection::choose_one_result(&cands, &vec![0, 1], &subnet.nodes, &all_nodes);
    // Deterministic behavior ensures the same result is chosen for the same input.
    assert_eq!(result1, result2);
}

#[test]
fn extend_feature_set_group() {
    let subnet_initial = new_test_subnet(0, 12, 1);
    let nodes_initial = subnet_initial.nodes.clone();
    let nodes_available = new_test_nodes("spare", 1, 0)
        .into_iter()
        .map(|mut n| {
            n.principal = "spare0-test".to_string();
            n
        })
        .collect::<Vec<_>>();
    let all_nodes = nodes_initial.iter().chain(nodes_available.iter()).cloned().collect::<Vec<_>>();

    let extended_subnet = subnet_initial.subnet_with_more_nodes(1, &nodes_available, &all_nodes).unwrap();
    let principals = |v: &Vec<Node>| v.iter().map(|n| n.principal.clone()).collect::<Vec<_>>();
    assert_eq!(
        principals(&extended_subnet.nodes),
        principals(&nodes_initial.iter().chain(nodes_available.iter()).cloned().collect::<Vec<_>>())
    );
}

#[test]
fn test_extend_empty_subnet() {
    let available_nodes = (0..20)
        .map(|i| new_test_node(i, NodeFeatures::new_test_feature_set(&format!("foo{i}")), i % 10 == 0))
        .collect::<Vec<_>>();
    let empty_subnet = DecentralizedSubnet::new_with_subnet_id_and_nodes(String::new(), vec![]);

    let want_subnet_size = 13;
    let new_subnet_result = empty_subnet.subnet_with_more_nodes(want_subnet_size, &available_nodes, &available_nodes);
    assert!(new_subnet_result.is_ok(), "error: {:?}", new_subnet_result.err());

    let new_subnet = new_subnet_result.unwrap();
    assert_eq!(new_subnet.nodes.len(), want_subnet_size)
}

#[test]
fn extension_fails_without_enough_nodes() {
    let available_nodes = new_test_nodes("spare", 2, 0);
    let subnet = new_test_subnet(0, 4, 1);
    assert!(subnet.clone().subnet_with_more_nodes(3, &available_nodes, &available_nodes).is_err());
    let extended = subnet.subnet_with_more_nodes(2, &available_nodes, &available_nodes).unwrap();
    assert_eq!(extended.nodes.len(), 6);
    assert_eq!(extended.added_nodes.len(), 2);
}

#[test]
fn shrinking_prefers_removing_the_dominant_provider() {
    // Two nodes share provider NP1; removing one of them improves decentralization the most.
    let nodes = new_test_nodes_with_overrides("feat", 0, 7, 1, (&NodeFeature::NodeProvider, &["NP1", "NP1", "NP2", "NP3", "NP4", "NP5", "NP6"]));
    let subnet = DecentralizedSubnet::new_with_subnet_id_and_nodes("subnet0-test".to_string(), nodes.clone());
    let smaller = subnet.clone().subnet_with_fewer_nodes(1, &nodes).unwrap();
    assert_eq!(smaller.nodes.len(), 6);
    assert_eq!(smaller.removed_nodes.len(), 1);
    assert!(["node0-test", "node1-test"].contains(&smaller.removed_nodes[0].principal.as_str()));
    assert!(subnet.subnet_with_fewer_nodes(8, &nodes).is_err());
}

fn id_nodes_with_overrides(
    feat_prefix: &str,
    node_number_start: usize,
    num_nodes: usize,
    num_dfinity_nodes: usize,
    feature_to_override: (&NodeFeature, &[&str]),
) -> Vec<Node> {
    new_test_nodes_with_overrides(feat_prefix, node_number_start, num_nodes, num_dfinity_nodes, feature_to_override)
        .into_iter()
        .enumerate()
        .map(|(i, mut n)| {
            n.principal = test_id((node_number_start + i) as u64, 0xfd);
            n
        })
        .collect()
}

fn all_healthy(nodes: &[Node]) -> Vec<(String, HealthStatus)> {
    nodes.iter().map(|n| (n.principal.clone(), HealthStatus::Healthy)).collect()
}

#[test]
fn subnet_optimize_node_providers() {
    // NP2 owns 3 from 7 nodes, so it can halt the subnet
    let subnet_initial = DecentralizedSubnet::new_with_subnet_id_and_nodes(
        test_id(0, 0xfc),
        id_nodes_with_overrides("feat", 0, 7, 1, (&NodeFeature::NodeProvider, &["NP1", "NP2", "NP2", "NP2", "NP3", "NP4", "NP5"])),
    );
    assert_eq!(
        subnet_initial.check_business_rules(),
        (
            10020,
            vec![
                "node_provider NP2 controls 3 of nodes, which is higher than target of 1 for the subnet. Applying penalty of 20.".to_string(),
                "A single Node Provider can halt the subnet".to_string()
            ]
        )
    );
    let nodes_available = id_nodes_with_overrides("spare", 7, 2, 0, (&NodeFeature::NodeProvider, &["NP6", "NP7"]));
    let all_nodes = nodes_available.iter().chain(subnet_initial.nodes.iter()).cloned().collect::<Vec<_>>();
    let health_of_nodes = all_healthy(&all_nodes);

    let subnet_change_req = dre::request::SubnetChangeRequest::new(subnet_initial, nodes_available, Vec::new(), Vec::new(), Vec::new());
    let subnet_change = subnet_change_req.optimize(2, &vec![], &health_of_nodes, &vec![], &all_nodes).unwrap();
    let optimized_subnet = subnet_change.after();
    let mut nps_after = optimized_subnet.nodes.iter().map(|n| n.get_feature(&NodeFeature::NodeProvider).unwrap()).collect::<Vec<_>>();
    nps_after.sort();
    // Check that the selected nodes are providing the maximum uniformness (use all NPs)
    assert_eq!(nps_after, vec!["NP1", "NP2", "NP3", "NP4", "NP5", "NP6", "NP7"]);
}

#[test]
fn subnet_optimize_prefer_non_dfinity() {
    let subnet_initial = DecentralizedSubnet::new_with_subnet_id_and_nodes(
        test_id(0, 0xfc),
        id_nodes_with_overrides("feat", 0, 7, 1, (&NodeFeature::NodeProvider, &["NP1", "NP2", "NP2", "NP3", "NP4", "NP4", "NP5"])),
    );
    assert_eq!(
        subnet_initial.check_business_rules(),
        (
            20,
            vec![
                "node_provider NP2 controls 2 of nodes, which is higher than target of 1 for the subnet. Applying penalty of 10.".to_string(),
                "node_provider NP4 controls 2 of nodes, which is higher than target of 1 for the subnet. Applying penalty of 10.".to_string()
            ]
        )
    );
    // There are 2 spare nodes, but both are DFINITY
    let nodes_available = id_nodes_with_overrides("spare", 7, 2, 2, (&NodeFeature::NodeProvider, &["NP6", "NP7"]));
    let all_nodes = nodes_available.iter().chain(subnet_initial.nodes.iter()).cloned().collect::<Vec<_>>();
    let health_of_nodes = all_healthy(&all_nodes);

    let subnet_change_req = dre::request::SubnetChangeRequest::new(subnet_initial, nodes_available, Vec::new(), Vec::new(), Vec::new());
    let subnet_change = subnet_change_req.optimize(2, &vec![], &health_of_nodes, &vec![], &all_nodes).unwrap();
    let optimized_subnet = subnet_change.after();
    // There is still only one DFINITY-owned node in the subnet
    assert_eq!(1, optimized_subnet.nodes.iter().map(|n| n.dfinity_owned.unwrap_or_default() as u32).sum::<u32>());
}

#[test]
fn subnet_usa_dominance() {
    let subnet_initial = DecentralizedSubnet::new_with_subnet_id_and_nodes(
        test_id(0, 0xfc),
        id_nodes_with_overrides("feat", 0, 13, 1, (&NodeFeature::Country, &["US", "US", "US", "US", "US", "US", "US", "US", "US", "CH", "BE", "SG", "SI"])),
    );
    assert_eq!(
        subnet_initial.check_business_rules(),
        (
            1070,
            vec![
                "Country US controls 9 of nodes, which is higher than target of 2 for the subnet. Applying penalty of 70.".to_string(),
                "NodeFeature country controls 9 of nodes, which is > 8 (2/3 of all) nodes".to_string()
            ]
        )
    );
    let nodes_available = id_nodes_with_overrides("spare", 13, 3, 0, (&NodeFeature::Country, &["US", "RO", "JP"]));
    let all_nodes = nodes_available.iter().chain(subnet_initial.nodes.iter()).cloned().collect::<Vec<_>>();
    let health_of_nodes = all_healthy(&all_nodes);

    let subnet_change_req = dre::request::SubnetChangeRequest::new(subnet_initial, nodes_available, Vec::new(), Vec::new(), Vec::new());
    let subnet_change = subnet_change_req.optimize(2, &vec![], &health_of_nodes, &vec![], &all_nodes).unwrap();
    let optimized_subnet = subnet_change.after();
    let mut countries_after = optimized_subnet.nodes.iter().map(|n| n.get_feature(&NodeFeature::Country).unwrap()).collect::<Vec<_>>();
    countries_after.sort();
    // Two US nodes were removed
    assert_eq!(countries_after, vec!["BE", "CH", "JP", "RO", "SG", "SI", "US", "US", "US", "US", "US", "US", "US"]);
}

#[test]
fn test_resize() {
    let subnet_initial = DecentralizedSubnet::new_with_subnet_id_and_nodes(
        test_id(0, 0xfc),
        (0..24).map(|i| test_node_with_id(i, NodeFeatures::new_test_feature_set(&format!("feat {}", i)), false)).collect(),
    );
    let all_nodes = subnet_initial.nodes.clone();
    let health_of_nodes = all_healthy(&all_nodes);
    let change_initial = dre::request::SubnetChangeRequest::new(subnet_initial.clone(), Vec::new(), Vec::new(), Vec::new(), Vec::new());

    let after_resize = change_initial.resize(2, 2, 0, &health_of_nodes, &vec![], &all_nodes).unwrap();

    assert_eq!(subnet_initial.nodes.len(), after_resize.new_nodes.len());
    assert_eq!(after_resize.added_nodes.len(), 0);
    assert_eq!(after_resize.removed_nodes.len(), 0);
}

#[test]
fn cordoned_and_unhealthy_nodes_are_not_used() {
    let subnet_initial = DecentralizedSubnet::new_with_subnet_id_and_nodes(test_id(0, 0xfc), vec![]);
    let available = (0..4).map(|i| test_node_with_id(i, NodeFeatures::new_test_feature_set(&format!("x{}", i)), false)).collect::<Vec<_>>();
    let mut health_of_nodes = all_healthy(&available);
    health_of_nodes[1].1 = HealthStatus::Degraded;
    let cordoned = vec![dre::network::CordonedFeature { feature: NodeFeature::Country, value: "x2".to_string(), explanation: None }];
    let req = dre::request::SubnetChangeRequest::new(subnet_initial, available.clone(), Vec::new(), Vec::new(), Vec::new());
    let change = req.clone().resize(2, 0, 0, &health_of_nodes, &cordoned, &available).unwrap();
    let mut added = change.added().iter().map(|n| n.principal.clone()).collect::<Vec<_>>();
    added.sort();
    let mut expected = vec![available[0].principal.clone(), available[3].principal.clone()];
    expected.sort();
    assert_eq!(added, expected);
    assert!(req.resize(3, 0, 0, &health_of_nodes, &cordoned, &available).is_err());
}

#[test]
fn test_subnet_rescue() {
    let nodes_available: Vec<Node> =
        (0..10).map(|i| test_node_with_id(i, NodeFeatures::new_test_feature_set(&format!("spare {}", i)), i < 1)).collect();
    let countries = ["CH", "CA", "CA", "CA", "CA", "CA", "BE"];
    let subnet_initial = DecentralizedSubnet::new_with_subnet_id_and_nodes(
        test_id(0, 0xfc),
        (0..7)
            .map(|i| {
                test_node_with_id(
                    11 + i as u64,
                    NodeFeatures::new_test_feature_set(&format!("feat {}", i)).with_feature_value(&NodeFeature::Country, countries[i]),
                    i < 1,
                )
            })
            .collect(),
    );
    let all_nodes = nodes_available.iter().chain(subnet_initial.nodes.iter()).cloned().collect::<Vec<_>>();
    let health_of_nodes = all_healthy(&all_nodes);

    let change_initial = dre::request::SubnetChangeRequest::new(subnet_initial.clone(), nodes_available, Vec::new(), Vec::new(), Vec::new());

    let with_keeping_features =
        change_initial.clone().keeping_from_used(vec!["CH".to_string()]).rescue(&health_of_nodes, &vec![], &all_nodes).unwrap();

    assert_eq!(with_keeping_features.added().len(), 4);
    assert_eq!(
        with_keeping_features
            .new_nodes
            .iter()
            .filter(|n| n.get_feature(&NodeFeature::Country).unwrap() == *"CH")
            .collect::<Vec<_>>()
            .len(),
        1
    );

    let node_to_keep = subnet_initial.nodes.first().unwrap();
    let with_keeping_principals =
        change_initial.clone().keeping_from_used(vec!["CH".to_string()]).rescue(&health_of_nodes, &vec![], &all_nodes).unwrap();

    assert_eq!(with_keeping_principals.added().len(), 4);
    assert_eq!(
        with_keeping_principals.new_nodes.iter().filter(|n| n.principal == node_to_keep.principal).collect::<Vec<_>>().len(),
        1
    );

    let rescue_all = change_initial.clone().rescue(&health_of_nodes, &vec![], &all_nodes).unwrap();

    assert_eq!(rescue_all.added().len(), 5);
    assert_eq!(rescue_all.removed().len(), 5);
}

fn usa_subnet_and_spares() -> (DecentralizedSubnet, Vec<Node>) {
    let subnet = DecentralizedSubnet::new_with_subnet_id_and_nodes(
        test_id(0, 0xfc),
        id_nodes_with_overrides("feat", 0, 13, 1, (&NodeFeature::Country, &["US", "US", "US", "US", "US", "US", "US", "US", "US", "CH", "BE", "SG", "SI"])),
    );
    let spares = id_nodes_with_overrides("spare", 13, 3, 0, (&NodeFeature::Country, &["US", "RO", "JP"]));
    (subnet, spares)
}

#[test]
fn extension_comment_lists_penalties_per_node() {
    let (subnet, spares) = usa_subnet_and_spares();
    let extended = subnet.subnet_with_more_nodes(2, &spares, &spares).unwrap();
    let comment = extended.comment.expect("the extension keeps a penalty");
    assert!(comment.starts_with("Subnet extension with 2 nodes finished with the total penalty "), "{comment}");
    assert!(comment.contains(". Penalty causes throughout the extension:\n\n- adding node 1 of 2 ("), "{comment}");
    assert!(comment.contains("\n- adding node 2 of 2 ("), "{comment}");
    assert!(comment.ends_with(
        "\n\nBusiness rules analysis is calculated on each operation. Typically only the last operation is relevant, although this may depend on the case."
    ));
}

#[test]
fn extension_comment_of_one_node_has_no_note() {
    let (subnet, spares) = usa_subnet_and_spares();
    let extended = subnet.subnet_with_more_nodes(1, &spares, &spares).unwrap();
    let comment = extended.comment.expect("the extension keeps a penalty");
    assert!(comment.starts_with("Subnet extension with 1 nodes finished with the total penalty "), "{comment}");
    assert!(comment.contains(". Penalty causes throughout the extension:\n\n- adding node 1 of 1 ("), "{comment}");
    assert!(!comment.contains("node 2 of"));
    assert!(comment.ends_with("\n\n"));
}

#[test]
fn removal_comment_lists_penalties_per_node() {
    let (subnet, spares) = usa_subnet_and_spares();
    let all_nodes = subnet.nodes.iter().chain(spares.iter()).cloned().collect::<Vec<_>>();
    let smaller = subnet.subnet_with_fewer_nodes(2, &all_nodes).unwrap();
    let comment = smaller.comment.expect("the removal keeps a penalty");
    assert!(comment.starts_with("Subnet removal of 2 nodes finished with the total penalty "), "{comment}");
    assert!(comment.contains(". Penalty causes throughout the removal:\n\n- removing node 1 of 2 ("), "{comment}");
    assert!(comment.contains("\n- removing node 2 of 2 ("), "{comment}");
}

#[test]
fn evaluate_reports_a_node_to_remove_that_is_not_in_the_subnet() {
    let (subnet, spares) = usa_subnet_and_spares();
    let health_of_nodes = all_healthy(&spares);
    let req = dre::request::SubnetChangeRequest::new(subnet.clone(), spares.clone(), Vec::new(), vec![spares[0].clone()], Vec::new());
    match req.evaluate(&health_of_nodes, &vec![], &spares) {
        Err(NetworkError::NodeNotFound(p)) => assert_eq!(p, spares[0].principal),
        other => panic!("unexpected {:?}", other.map(|c| c.new_nodes.len())),
    }
    let req = dre::request::SubnetChangeRequest::new(subnet.clone(), spares.clone(), Vec::new(), vec![subnet.nodes[3].clone()], Vec::new());
    let change = req.evaluate(&health_of_nodes, &vec![], &spares).unwrap();
    assert_eq!(change.old_nodes.len(), 13);
    assert_eq!(change.new_nodes.len(), 12);
    assert_eq!(change.removed_nodes.len(), 1);
    assert_eq!(change.removed_nodes[0].principal, subnet.nodes[3].principal);
    assert!(change.added_nodes.is_empty());
}

#[test]
fn optimize_reports_a_replacement_that_is_not_in_the_subnet() {
    let (subnet, spares) = usa_subnet_and_spares();
    let health_of_nodes = all_healthy(&spares);
    let req = dre::request::SubnetChangeRequest::new(subnet, spares.clone(), Vec::new(), Vec::new(), Vec::new());
    match req.optimize(1, &vec![spares[1].clone()], &health_of_nodes, &vec![], &spares) {
        Err(NetworkError::NodeNotFound(p)) => assert_eq!(p, spares[1].principal),
        other => panic!("unexpected {:?}", other.map(|c| c.new_nodes.len())),
    }
}

#[test]
fn business_rules_do_not_depend_on_node_order() {
    let (subnet, spares) = usa_subnet_and_spares();
    let mut nodes = subnet.nodes.clone();
    nodes.extend(spares);
    let forward = check_business_rules_for_subnet_with_nodes(&subnet.id, &nodes);
    nodes.reverse();
    let backward = check_business_rules_for_subnet_with_nodes(&subnet.id, &nodes);
    assert_eq!(forward, backward);
}

#[test]
fn business_rule_penalties_come_with_messages() {
    let (subnet, _) = usa_subnet_and_spares();
    for nodes in [subnet.nodes.clone(), new_test_nodes("feat", 7, 1), new_test_nodes("feat", 4, 0)] {
        let (penalty, messages) = check_business_rules_for_subnet_with_nodes(&subnet.id, &nodes);
        assert_eq!(penalty == 0, messages.is_empty());
        assert!(penalty >= 10 * messages.len());
    }
}

#[test]
fn nakamoto_coefficient_is_the_least_group_over_a_third() {
    // 9 nodes: the largest actor (5) alone controls more than 3.
    assert_eq!(nakamoto(&vec![1, 5, 3]), (1, 5));
    // 12 nodes, a third is 4: the two largest (3 + 3) are needed.
    assert_eq!(nakamoto(&vec![3, 2, 3, 2, 2]), (2, 6));
}

#[test]
fn differences_are_worded_with_their_numbers() {
    let d = ScoreDifference::ControlledNodes { feature: NodeFeature::NodeProvider, self_nodes: 2, other_nodes: 3 };
    assert_eq!(dre::describe::describe_integers(&d), "(gets better) the number of nodes controlled by dominant NPs decreases from 3 to 2");
    let d = ScoreDifference::UniqueActors { feature: NodeFeature::Country, self_actors: 4, other_actors: 6 };
    assert_eq!(dre::describe::describe_integers(&d), "(gets worse) the number of different Country actors decreases from 6 to 4");
    let d = ScoreDifference::LowCoefficients { self_count: 1, other_count: 2 };
    assert_eq!(
        dre::describe::describe_integers(&d),
        "(gets worse) the number of Nakamoto coefficients with extremely low values increases from 2 to 1"
    );
    let d = ScoreDifference::FeatureCoefficient { feature: NodeFeature::Country, self_coefficient: 5, other_coefficient: 4 };
    assert_eq!(dre::describe::describe_integers(&d), "the Nakamoto coefficient value for feature country changes from 4.00 to 5.00");
    assert_eq!(dre::describe::describe_integers(&ScoreDifference::Equal), "equal decentralization across all features");
}

#[test]
fn extension_choice_ignores_node_order() {
    let subnet = new_test_subnet(0, 12, 1);
    let spares = new_test_nodes("spare", 3, 0);
    let mut reversed_nodes = subnet.nodes.clone();
    reversed_nodes.reverse();
    let reversed = DecentralizedSubnet::new_with_subnet_id_and_nodes(subnet.id.clone(), reversed_nodes);
    let a = subnet.subnet_with_more_nodes(2, &spares, &spares).unwrap();
    let b = reversed.subnet_with_more_nodes(2, &spares, &spares).unwrap();
    let principals = |nodes: &Vec<Node>| nodes.iter().map(|n| n.principal.clone()).collect::<Vec<_>>();
    assert_eq!(principals(&a.added_nodes), principals(&b.added_nodes));
    assert_eq!(a.added_nodes.len(), 2);
}
