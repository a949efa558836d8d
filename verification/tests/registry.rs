use dre::registry::{
    get_rewardable_nodes_per_provider, nodes_in_range, DataCenterRecord, NodeOperatorRecord, NodeRecord, NodeRegistryEntry,
    RegistryVersionBounds,
};
use dre::reward_period::{DayUTC, NANOS_PER_DAY};

fn record(op: &str, ip: &str) -> Option<NodeRecord> {
    Some(NodeRecord { node_operator_id: op.to_string(), ip_addr: Some(ip.to_string()) })
}

fn entry(node: &str, version: u64, record: Option<NodeRecord>) -> NodeRegistryEntry {
    NodeRegistryEntry { node_id: node.to_string(), version, record }
}

fn operator(op: &str, provider: &str, dc: &str, counts: &[(&str, u32)]) -> NodeOperatorRecord {
    NodeOperatorRecord {
        node_operator_principal_id: op.to_string(),
        node_provider_principal_id: provider.to_string(),
        dc_id: dc.to_string(),
        rewardable_nodes: counts.iter().map(|(t, c)| (t.to_string(), *c)).collect(),
    }
}

fn dc(id: &str, region: &str) -> DataCenterRecord {
    DataCenterRecord { id: id.to_string(), region: region.to_string() }
}

#[test]
fn nodes_in_range_keep_their_validity_and_come_in_order_of_registration() {
    let entries = vec![
        entry("a", 120, record("o1", "ip-a")),
        entry("b", 40, record("o1", "ip-b")),
        entry("b", 130, None),
        entry("c", 10, record("o1", "ip-c")),
        entry("c", 20, None),
        entry("d", 150, record("o1", "ip-d")),
        entry("d", 160, record("o2", "ip-d")),
        entry("e", 300, record("o1", "ip-e")),
    ];
    let r = nodes_in_range(&entries, RegistryVersionBounds { start_bound: 100, end_bound: 200 });
    let ids: Vec<&str> = r.iter().map(|(id, _)| id.as_str()).collect();
    assert_eq!(ids, vec!["b", "a", "d"]);
    assert_eq!(r[0].1 .1, RegistryVersionBounds { start_bound: 100, end_bound: 130 });
    assert_eq!(r[1].1 .1, RegistryVersionBounds { start_bound: 120, end_bound: 200 });
    assert_eq!(r[2].1 .1, RegistryVersionBounds { start_bound: 150, end_bound: 200 });
    assert_eq!(r[2].1 .0.node_operator_id, "o2");
}

#[test]
fn nodes_removed_before_the_range_are_not_rewarded() {
    let entries = vec![
        entry("n1", 50, record("o1", "ip1")),
        entry("n1", 80, None),
        entry("n2", 60, record("o1", "ip2")),
        entry("n3", 150, record("o1", "ip3")),
    ];
    let operators = vec![operator("o1", "p1", "X", &[("type1", 1), ("type2", 2)])];
    let dcs = vec![dc("X", "A")];
    let start = 10 * NANOS_PER_DAY + 5;
    let end = 12 * NANOS_PER_DAY + 5;
    let r = get_rewardable_nodes_per_provider(200, &entries, &operators, &dcs, start, end);
    assert_eq!(r.len(), 1);
    let (provider, nodes) = &r[0];
    assert_eq!(provider, "p1");
    assert_eq!(nodes.provider_id, "p1");
    assert!(!nodes.rewardable_nodes.iter().any(|n| n.node_id == "n1"));
    let typed: Vec<(&str, &str)> = nodes.rewardable_nodes.iter().map(|n| (n.node_id.as_str(), n.node_type.as_str())).collect();
    assert_eq!(typed, vec![("n3", "type1"), ("n2", "type2")]);
    for n in &nodes.rewardable_nodes {
        assert_eq!(n.rewardable_from, DayUTC::from(start));
        assert_eq!(n.rewardable_to, DayUTC::from(end));
        assert_eq!(n.dc_id, "X");
        assert_eq!(n.region, "A");
    }
    assert_eq!(
        nodes.rewardable_nodes_count,
        vec![(("A".to_string(), "type1".to_string()), 1), (("A".to_string(), "type2".to_string()), 2)]
    );
}

#[test]
fn nodes_beyond_the_rewardable_counts_get_no_type() {
    let entries = vec![
        entry("n1", 150, record("o1", "ip1")),
        entry("n2", 160, record("o1", "ip2")),
        entry("n3", 170, record("o1", "ip3")),
        entry("n4", 180, record("o2", "ip4")),
    ];
    let operators = vec![operator("o1", "p1", "X", &[("type0", 0), ("type1", 2)]), operator("o2", "p1", "Y", &[("type1", 3)])];
    let dcs = vec![dc("X", "A"), dc("Y", "A")];
    let r = get_rewardable_nodes_per_provider(200, &entries, &operators, &dcs, NANOS_PER_DAY, NANOS_PER_DAY);
    assert_eq!(r.len(), 1);
    let nodes = &r[0].1;
    let ids: Vec<&str> = nodes.rewardable_nodes.iter().map(|n| n.node_id.as_str()).collect();
    assert_eq!(ids, vec!["n4", "n3", "n2"]);
    assert_eq!(nodes.rewardable_nodes_count, vec![(("A".to_string(), "type1".to_string()), 5), (("A".to_string(), "type0".to_string()), 0)]);
}

#[test]
fn nodes_of_unknown_operators_are_skipped() {
    let entries = vec![entry("n1", 150, record("o9", "ip1")), entry("n2", 160, record("o1", "ip2"))];
    let operators = vec![operator("o1", "p1", "X", &[("type1", 1)]), operator("o2", "p2", "X", &[("type1", 1)])];
    let dcs = vec![dc("X", "B")];
    let r = get_rewardable_nodes_per_provider(120, &entries, &operators, &dcs, 0, 0);
    assert!(r.is_empty());
    let r = get_rewardable_nodes_per_provider(200, &entries, &operators, &dcs, 0, 0);
    assert_eq!(r.len(), 1);
    assert_eq!(r[0].0, "p1");
    assert_eq!(r[0].1.rewardable_nodes.len(), 1);
    assert_eq!(r[0].1.rewardable_nodes[0].node_id, "n2");
}
