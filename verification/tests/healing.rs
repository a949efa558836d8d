use dre::change::SubnetChange;
use dre::compare::ScoreDifference;
use dre::features::{NodeFeature, NodeFeatures};
use dre::heal::{cordoned_nodes_of, plan_fixes, replacement_nodes, NetworkHealRequest, NetworkHealSubnet, OptimizationStep};
use dre::network::{CordonedFeature, DecentralizedSubnet};
use dre::request::SubnetChangeRequest;
use dre::response::{generate_added_node_description, generate_removed_nodes_description, SubnetChangeResponse};
use dre::subnet::{HealthStatus, Node};

fn node(n: u64, features: NodeFeatures) -> Node {
    Node {
        principal: format!("node{}-test", n),
        features,
        dfinity_owned: Some(false),
        operator: format!("operator{}", n),
        provider: format!("provider{}", n),
        datacenter: None,
        subnet_id: None,
        proposal: None,
        duplicates: None,
    }
}

fn spread_nodes(start: u64, count: u64) -> Vec<Node> {
    (start..start + count).map(|i| node(i, NodeFeatures::new_test_feature_set(&format!("f{}", i)))).collect()
}

fn subnet(id: &str, nodes: Vec<Node>) -> DecentralizedSubnet {
    DecentralizedSubnet::new_with_subnet_id_and_nodes(id.to_string(), nodes)
}

fn all_healthy(nodes: &[Node]) -> Vec<(String, HealthStatus)> {
    nodes.iter().map(|n| (n.principal.clone(), HealthStatus::Healthy)).collect()
}

fn change(subnet_id: &str, old: Vec<Node>, removed: Vec<Node>, added: Vec<Node>) -> SubnetChange {
    let mut new_nodes: Vec<Node> = old.iter().filter(|n| !removed.iter().any(|r| r.principal == n.principal)).cloned().collect();
    new_nodes.extend(added.iter().cloned());
    SubnetChange {
        subnet_id: subnet_id.to_string(),
        old_nodes: old,
        new_nodes,
        removed_nodes: removed,
        added_nodes: added,
        penalties_before_change: (3, vec![]),
        penalties_after_change: (1, vec![]),
        comment: Some("comment".to_string()),
        run_log: vec!["line".to_string()],
    }
}

#[test]
fn response_lists_ids_scores_and_penalties() {
    let old = spread_nodes(0, 4);
    let added = spread_nodes(10, 1);
    let c = change("subnet1-test", old.clone(), vec![old[0].clone()], added.clone());
    let r = SubnetChangeResponse::new(&c, &vec![("node1-test".to_string(), HealthStatus::Dead)], Some("why".to_string()));
    assert_eq!(r.node_ids_removed, vec!["node0-test".to_string()]);
    assert_eq!(r.node_ids_added, vec!["node10-test".to_string()]);
    assert_eq!(r.subnet_id, Some("subnet1-test".to_string()));
    assert_eq!(r.penalties_before_change, 3);
    assert_eq!(r.penalties_after_change, 1);
    assert_eq!(r.motivation, Some("why".to_string()));
    assert_eq!(r.comment, Some("comment".to_string()));
    assert_eq!(r.run_log, Some(vec!["line".to_string()]));
    assert_eq!(r.health_of_nodes.len(), 1);
    assert_eq!(r.proposal_id, None);
    assert_eq!(r.nodes_old.len(), 4);
    assert_eq!(r.score_before.coefficient_sum(), 6 * 2);
    assert_eq!(r.score_after.coefficient_sum(), 6 * 2);
    let keys: Vec<&str> = r.decentralization_impact.iter().map(|(k, _)| k.as_str()).collect();
    assert_eq!(keys, vec!["node0-test", "node10-test"]);
    // Four and three distinct nodes have the same coefficients; the number of providers differs.
    assert_eq!(
        r.decentralization_impact[0].1,
        ScoreDifference::UniqueActors { feature: NodeFeature::NodeProvider, self_actors: 3, other_actors: 4 }
    );
    assert_eq!(
        r.decentralization_impact[1].1,
        ScoreDifference::UniqueActors { feature: NodeFeature::NodeProvider, self_actors: 4, other_actors: 3 }
    );
}

#[test]
fn response_for_the_default_principal_has_no_subnet() {
    let old = spread_nodes(0, 2);
    let c = change("aaaaa-aa", old, vec![], vec![]);
    let r = SubnetChangeResponse::new(&c, &vec![], None);
    assert_eq!(r.subnet_id, None);
    assert!(r.decentralization_impact.is_empty());
}

#[test]
fn response_counts_feature_values_before_and_after() {
    let old: Vec<Node> = (0..3)
        .map(|i| node(i, NodeFeatures::new_test_feature_set(&format!("f{}", i)).with_feature_value(&NodeFeature::Country, if i < 2 { "CH" } else { "US" })))
        .collect();
    let added = vec![node(9, NodeFeatures::new_test_feature_set("g").with_feature_value(&NodeFeature::Country, "DE"))];
    let c = change("s-1", old.clone(), vec![old[0].clone()], added);
    let r = SubnetChangeResponse::new(&c, &vec![], None);
    assert_eq!(r.feature_diff.len(), 6);
    let (feature, diff) = &r.feature_diff[4];
    assert_eq!(*feature, NodeFeature::Country);
    assert_eq!(
        diff,
        &vec![(Some("CH".to_string()), (2, 1)), (Some("US".to_string()), (1, 1)), (Some("DE".to_string()), (0, 1))]
    );
}

#[test]
fn with_motivation_sets_the_motivation() {
    let c = change("s-1", spread_nodes(0, 1), vec![], vec![]);
    let r = SubnetChangeResponse::new(&c, &vec![], None).with_motivation("m".to_string());
    assert_eq!(r.motivation, Some("m".to_string()));
}

fn heal_subnet(name: &str, size: u64) -> NetworkHealSubnet {
    NetworkHealSubnet {
        name: name.to_string(),
        decentralized_subnet: subnet(&format!("{}-id", name), spread_nodes(0, size)),
        unhealthy_nodes: vec![],
        cordoned_nodes: vec![],
    }
}

#[test]
fn important_subnets_heal_first_then_larger_ones() {
    let nns = heal_subnet("NNS", 4);
    let big = heal_subnet("app", 30);
    let small = heal_subnet("other", 13);
    assert!(big.heals_after(&nns));
    assert!(!nns.heals_after(&big));
    assert!(small.heals_after(&big));
    assert!(!small.heals_after(&small));
}

#[test]
fn plan_orders_subnets_to_fix_by_priority() {
    let subnets = vec![
        ("app".to_string(), subnet("a-1", spread_nodes(0, 13))),
        ("NNS".to_string(), subnet("n-1", spread_nodes(100, 13))),
        ("big".to_string(), subnet("b-1", spread_nodes(200, 28))),
        ("fine".to_string(), subnet("f-1", spread_nodes(300, 13))),
    ];
    // Only the nodes of "fine" are known to be healthy.
    let healths = all_healthy(&subnets[3].1.nodes);
    let plan = plan_fixes(&subnets, &healths, &vec![], false, false, true);
    assert_eq!(plan, vec![(1, true, false), (2, true, false), (0, true, false)]);
    // Without healing, unhealthy subnets are not fixed.
    assert_eq!(plan_fixes(&subnets, &healths, &vec![], false, false, false), vec![]);
}

#[test]
fn plan_adds_cordoned_subnets() {
    let mut cordoned_nodes = spread_nodes(0, 13);
    cordoned_nodes[3].features = cordoned_nodes[3].features.clone().with_feature_value(&NodeFeature::DataCenter, "dc-bad");
    let subnets = vec![("app".to_string(), subnet("a-1", cordoned_nodes.clone())), ("other".to_string(), subnet("o-1", spread_nodes(50, 13)))];
    let mut healths = all_healthy(&subnets[0].1.nodes);
    healths.extend(all_healthy(&subnets[1].1.nodes));
    let cf = vec![CordonedFeature { feature: NodeFeature::DataCenter, value: "dc-bad".to_string(), explanation: Some("moving out".to_string()) }];
    let pairs = cordoned_nodes_of(&cordoned_nodes, &cf);
    assert_eq!(pairs.len(), 1);
    assert_eq!(pairs[0].0.principal, "node3-test");
    assert_eq!(pairs[0].1, "moving out");
    assert_eq!(plan_fixes(&subnets, &healths, &cf, true, false, false), vec![(0, false, true)]);
    assert_eq!(plan_fixes(&subnets, &healths, &cf, false, false, true), vec![]);
}

#[test]
fn replacements_are_capped_at_a_sixth_of_the_subnet() {
    let mut h = heal_subnet("app", 13);
    h.unhealthy_nodes = h.decentralized_subnet.nodes[0..3].to_vec();
    let r = replacement_nodes(&h);
    assert_eq!(r.len(), 2);
    assert_eq!(r[0].0.principal, "node0-test");
    assert_eq!(r[0].1, "unhealthy");
    assert_eq!(r[1].0.principal, "node1-test");
}

#[test]
fn replacements_drop_repeats() {
    let mut h = heal_subnet("app", 30);
    let n0 = h.decentralized_subnet.nodes[0].clone();
    h.unhealthy_nodes = vec![n0.clone(), n0.clone()];
    h.cordoned_nodes = vec![(n0.clone(), "dc".to_string())];
    let r = replacement_nodes(&h);
    assert_eq!(r.len(), 2);
    assert_eq!(r[0].1, "unhealthy");
    assert_eq!(r[1].1, "dc");
}

#[test]
fn fix_and_optimize_replaces_a_dead_node() {
    let nodes = spread_nodes(0, 13);
    let available = spread_nodes(100, 6);
    let mut healths = all_healthy(&nodes[1..]);
    healths.push(("node0-test".to_string(), HealthStatus::Dead));
    healths.extend(all_healthy(&available));
    let req = NetworkHealRequest::new(vec![("app".to_string(), subnet("s1-x", nodes.clone()))]);
    let healed = req.fix_and_optimize(available.clone(), &healths, vec![], &available, false, false, true);
    assert_eq!(healed.len(), 1);
    let h = &healed[0];
    assert!(h.change.node_ids_removed.contains(&"node0-test".to_string()));
    assert!(!h.change.node_ids_added.is_empty());
    for id in &h.change.node_ids_added {
        assert!(available.iter().any(|n| &n.principal == id));
    }
    assert_eq!(h.replacement_reasons, vec!["replacing dead node node0".to_string()]);
    assert_eq!(h.change.subnet_id, Some("s1-x".to_string()));
    assert_eq!(h.change.nodes_old.len(), 13);
    let descriptions: Vec<String> = h.optimizations.iter().map(|_| "same".to_string()).collect();
    let m = h.motivation(&descriptions);
    assert!(m.starts_with("\n - replacing dead node node0\n\nCalculated potential impact on subnet decentralization if replacing:\n\n"));
    assert!(m.ends_with("if you are wondering if another node would have improved decentralization more.\n\n"));
    let c = healed[0].clone().into_change(&descriptions);
    assert_eq!(c.motivation, Some(m));
}

#[test]
fn fix_and_optimize_does_nothing_for_healthy_subnets() {
    let nodes = spread_nodes(0, 13);
    let healths = all_healthy(&nodes);
    let req = NetworkHealRequest::new(vec![("app".to_string(), subnet("s1-x", nodes))]);
    assert!(req.fix_and_optimize(vec![], &healths, vec![], &vec![], false, false, true).is_empty());
}

#[test]
fn motivation_lists_each_further_candidate() {
    let nodes = spread_nodes(0, 13);
    let available = spread_nodes(100, 6);
    let mut healths = all_healthy(&nodes[1..]);
    healths.extend(all_healthy(&available));
    let req = NetworkHealRequest::new(vec![("app".to_string(), subnet("s1-x", nodes))]);
    let healed = req.fix_and_optimize(available.clone(), &healths, vec![], &available, false, false, true);
    assert_eq!(healed.len(), 1);
    let mut h = healed[0].clone();
    // Node 0 has no recorded health: it counts as unhealthy.
    assert_eq!(h.replacement_reasons, vec!["replacing unhealthy node node0".to_string()]);
    h.optimizations = vec![OptimizationStep { nodes: 1, difference: ScoreDifference::Equal, penalty_before: 2, penalty_after: 1 }];
    h.additional_nodes = 1;
    let m = h.motivation(&vec!["better".to_string()]);
    assert!(m.contains(
        "\n\n- 1 additional node would result in: better and subnet topology penalty before 2 => 1 after the change\n\nBased on the calculated potential impact, replacing 1 additional nodes to improve optimization\n\nNote: the heuristic"
    ));
}

fn numbered_nodes(prefix: &str, count: u64, dfinity: u64) -> Vec<Node> {
    (0..count)
        .map(|i| {
            let mut n = node(i, NodeFeatures::new_test_feature_set(&format!("{} {}", prefix, i)));
            n.principal = format!("{}{}-test", prefix, i);
            n.dfinity_owned = Some(i < dfinity);
            n
        })
        .collect()
}

#[test]
fn test_network_heal_subnets_ord() {
    let not_important_small = NetworkHealSubnet {
        name: String::from("App 20"),
        decentralized_subnet: subnet("k44fs-gm4pv-afozh-rs7zw-cg32n-u7xov-xqyx3-2pw5q-eucnu-cosd4-uqe", numbered_nodes("feat", 13, 0)),
        unhealthy_nodes: vec![],
        cordoned_nodes: vec![],
    };
    let not_important_large = NetworkHealSubnet {
        name: String::from("European"),
        decentralized_subnet: subnet("bkfrj-6k62g-dycql-7h53p-atvkj-zg4to-gaogh-netha-ptybj-ntsgw-rqe", numbered_nodes("feat", 28, 0)),
        unhealthy_nodes: vec![],
        cordoned_nodes: vec![],
    };
    let important = NetworkHealSubnet {
        name: String::from("tECDSA signing"),
        decentralized_subnet: subnet("uzr34-akd3s-xrdag-3ql62-ocgoh-ld2ao-tamcv-54e7j-krwgb-2gm4z-oqe", numbered_nodes("uzr", 28, 0)),
        unhealthy_nodes: vec![],
        cordoned_nodes: vec![],
    };
    let mut healing_order = vec![not_important_small.clone(), important.clone(), not_important_large.clone()];
    healing_order.sort_by(|a, b| {
        if b.heals_after(a) {
            std::cmp::Ordering::Less
        } else if a.heals_after(b) {
            std::cmp::Ordering::Greater
        } else {
            std::cmp::Ordering::Equal
        }
    });
    let names: Vec<&str> = healing_order.iter().map(|s| s.name.as_str()).collect();
    assert_eq!(names, vec!["tECDSA signing", "European", "App 20"]);
}

#[test]
fn test_network_heal() {
    let nodes_available = numbered_nodes("spare", 10, 2);
    let subnet_nodes = numbered_nodes("uzr", 28, 0);
    let unhealthy_principals = [subnet_nodes[3].principal.clone(), subnet_nodes[17].principal.clone()];
    let all_nodes: Vec<Node> = nodes_available.iter().chain(subnet_nodes.iter()).cloned().collect();
    let health_of_nodes: Vec<(String, HealthStatus)> = all_nodes
        .iter()
        .map(|n| {
            if unhealthy_principals.contains(&n.principal) {
                (n.principal.clone(), HealthStatus::Dead)
            } else {
                (n.principal.clone(), HealthStatus::Healthy)
            }
        })
        .collect();
    let request = NetworkHealRequest::new(vec![("tECDSA signing".to_string(), subnet("uzr34-x", subnet_nodes))]);
    let healed = request.fix_and_optimize(nodes_available.clone(), &health_of_nodes, vec![], &all_nodes, false, false, true);
    let result = &healed.first().unwrap().change;
    for unhealthy in unhealthy_principals.iter() {
        assert!(result.node_ids_removed.contains(unhealthy));
    }
}

#[test]
fn request_builders_pick_nodes_by_principal_or_feature() {
    let mut nodes = numbered_nodes("n", 4, 0);
    nodes[1].features = nodes[1].features.clone().with_feature_value(&NodeFeature::Country, "CH");
    let available = numbered_nodes("spare", 3, 0);
    let req = SubnetChangeRequest::new(subnet("s-1", nodes.clone()), available.clone(), vec![], vec![], vec![]);
    let kept = req.clone().keeping_from_used(vec!["ch".to_string()]);
    assert_eq!(kept.nodes_to_keep.iter().map(|n| n.principal.clone()).collect::<Vec<_>>(), vec!["n1-test".to_string()]);
    let removed = req.clone().removing_from_used(vec![nodes[2].clone()]);
    assert_eq!(removed.nodes_to_remove.len(), 1);
    assert_eq!(removed.nodes_to_remove[0].principal, "n2-test");
    let included = req.clone().including_from_available(vec!["spare0-test".to_string()]);
    assert_eq!(included.include_nodes.len(), 1);
    let excluded = req.clone().excluding_from_available(vec!["spare0-test".to_string()]);
    assert_eq!(excluded.available_nodes.len(), 2);
    assert_eq!(req.subnet().nodes.len(), 4);
    assert_eq!(req.with_custom_available_nodes(vec![]).available_nodes.len(), 0);
}

#[test]
fn create_subnet_adds_requested_nodes_and_picks_the_rest() {
    let available = numbered_nodes("spare", 10, 0);
    let healths = all_healthy(&available);
    let c = dre::request::create_subnet(
        available.clone(),
        4,
        vec!["spare0-test".to_string()],
        vec!["spare1-test".to_string()],
        vec!["spare1-test".to_string(), "spare2-test".to_string(), "spare3-test".to_string(), "spare4-test".to_string()],
        &healths,
        &vec![],
        &available,
    )
    .unwrap();
    assert_eq!(c.new_nodes.len(), 4);
    assert!(c.new_nodes.iter().any(|n| n.principal == "spare0-test"));
    assert!(!c.new_nodes.iter().any(|n| n.principal == "spare1-test"));
    assert!(c.old_nodes.is_empty());
    assert_eq!(c.subnet_id, "aaaaa-aa");
}

#[test]
fn create_subnet_sees_added_nodes_twice_without_only_nodes() {
    // The added nodes are put back into the pool, which already holds them: they are included twice.
    let available = numbered_nodes("spare", 10, 0);
    let healths = all_healthy(&available);
    let c = dre::request::create_subnet(available.clone(), 4, vec!["spare0-test".to_string()], vec![], vec![], &healths, &vec![], &available)
        .unwrap();
    assert_eq!(c.new_nodes.iter().filter(|n| n.principal == "spare0-test").count(), 2);
    assert_eq!(c.new_nodes.len(), 5);
}

#[test]
fn each_removed_or_added_node_is_described_by_its_effect() {
    let old = spread_nodes(0, 4);
    let removed = generate_removed_nodes_description(&old, &vec![old[0].clone(), old[0].clone()]);
    assert_eq!(removed.len(), 2);
    assert_eq!(removed[0].0.principal, "node0-test");
    assert_eq!(removed[0].1, ScoreDifference::UniqueActors { feature: NodeFeature::NodeProvider, self_actors: 3, other_actors: 4 });
    assert_eq!(removed[1].1, ScoreDifference::Equal);
    let added = generate_added_node_description(&old, &spread_nodes(10, 1));
    assert_eq!(added.len(), 1);
    assert_eq!(added[0].0.principal, "node10-test");
    assert_eq!(added[0].1, ScoreDifference::UniqueActors { feature: NodeFeature::NodeProvider, self_actors: 5, other_actors: 4 });
}

#[test]
fn fix_and_optimize_without_any_flag_does_nothing() {
    let nodes = spread_nodes(0, 13);
    let available = spread_nodes(100, 6);
    let mut healths = all_healthy(&nodes[1..]);
    healths.push(("node0-test".to_string(), HealthStatus::Dead));
    healths.extend(all_healthy(&available));
    let req = NetworkHealRequest::new(vec![("app".to_string(), subnet("s1-x", nodes))]);
    assert!(req.fix_and_optimize(available.clone(), &healths, vec![], &available, false, false, false).is_empty());
}

#[test]
fn fix_and_optimize_replaces_at_most_a_sixth_and_keeps_sizes() {
    let nodes = spread_nodes(0, 13);
    let available = spread_nodes(100, 6);
    let mut healths = all_healthy(&nodes[2..]);
    healths.push(("node0-test".to_string(), HealthStatus::Dead));
    healths.push(("node1-test".to_string(), HealthStatus::Degraded));
    healths.extend(all_healthy(&available));
    let req = NetworkHealRequest::new(vec![("app".to_string(), subnet("s1-x", nodes.clone()))]);
    let healed = req.fix_and_optimize(available.clone(), &healths, vec![], &available, false, false, true);
    assert_eq!(healed.len(), 1);
    let removed = &healed[0].change.node_ids_removed;
    assert!(!removed.is_empty() && removed.len() <= nodes.len() / 6);
    assert!(removed.contains(&"node0-test".to_string()));
    assert!(removed.contains(&"node1-test".to_string()));
    assert_eq!(healed[0].change.node_ids_added.len(), removed.len());
}
