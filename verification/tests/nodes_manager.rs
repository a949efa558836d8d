use dre::daily_metrics::{NodeMetrics, NodeMetricsStored};
use dre::node_metrics_store::NodeMetricsStore;
use dre::nodes_manager::{
    get_assigned_nodes_performance, get_daily_metrics, get_node_operators_rewardables, get_node_providers_rewardables, RewardableNodes,
};
use dre::registry::{DataCenterRecord, NodeOperatorRecord};

fn stored(subnet: &str, proposed: u64, failed: u64) -> NodeMetricsStored {
    NodeMetricsStored {
        subnet_assigned: subnet.to_string(),
        num_blocks_proposed_total: proposed * 10,
        num_blocks_failures_total: failed * 10,
        num_blocks_proposed: proposed,
        num_blocks_failed: failed,
    }
}

fn operator(op: &str, provider: &str, dc: &str, counts: &[(&str, u32)]) -> NodeOperatorRecord {
    NodeOperatorRecord {
        node_operator_principal_id: op.to_string(),
        node_provider_principal_id: provider.to_string(),
        dc_id: dc.to_string(),
        rewardable_nodes: counts.iter().map(|(t, c)| (t.to_string(), *c)).collect(),
    }
}

fn store() -> NodeMetricsStore {
    let mut s = NodeMetricsStore::new();
    s.insert_node_metrics((20, "n2".to_string()), stored("s1", 2, 0));
    s.insert_node_metrics((10, "n1".to_string()), stored("s1", 1, 1));
    s.insert_node_metrics((20, "n1".to_string()), stored("s2", 3, 0));
    s.insert_node_metrics((10, "n1".to_string()), stored("s1", 5, 1));
    s
}

#[test]
fn stored_metrics_are_ordered_by_time_then_node() {
    let s = store();
    let keys: Vec<(u64, String)> = s.nodes_metrics.iter().map(|e| e.0.clone()).collect();
    assert_eq!(keys, vec![(10, "n1".to_string()), (20, "n1".to_string()), (20, "n2".to_string())]);
    assert_eq!(s.nodes_metrics[0].1.num_blocks_proposed, 5);
    assert_eq!(s.latest_ts(), Some(20));
    assert_eq!(NodeMetricsStore::new().latest_ts(), None);
}

#[test]
fn metrics_range_filters_by_time_and_node() {
    let s = store();
    assert_eq!(s.get_metrics_range(0, None, None).len(), 3);
    let r = s.get_metrics_range(15, Some(20), None);
    assert_eq!(r.len(), 2);
    let only_n2 = vec!["n2".to_string()];
    let r = s.get_metrics_range(0, None, Some(&only_n2));
    assert_eq!(r.len(), 1);
    assert_eq!(r[0].0, (20, "n2".to_string()));
    assert!(s.get_metrics_range(21, None, None).is_empty());
}

#[test]
fn latest_metrics_are_those_of_the_last_time() {
    let s = store();
    let r = s.latest_metrics(&vec!["n1".to_string(), "n3".to_string()]);
    assert_eq!(r.len(), 1);
    assert_eq!(r[0].0, "n1");
    assert_eq!(r[0].1.subnet_assigned, "s2");
}

#[test]
fn daily_metrics_are_grouped_by_node() {
    let s = store();
    let r = get_daily_metrics(&s.nodes_metrics);
    assert_eq!(r.len(), 2);
    assert_eq!(r[0].0, "n1");
    let n1: Vec<(u64, String, u64, u64)> =
        r[0].1.iter().map(|d| (d.ts, d.subnet_assigned.clone(), d.num_blocks_proposed, d.num_blocks_failed)).collect();
    assert_eq!(n1, vec![(10, "s1".to_string(), 5, 1), (20, "s2".to_string(), 3, 0)]);
    assert_eq!(r[1].0, "n2");
    assert_eq!(r[1].1.len(), 1);
}

#[test]
fn operators_and_providers_rewardables() {
    let ops = vec![
        operator("o1", "p1", "X", &[("type1", 2), ("type3", 1)]),
        operator("o2", "p1", "Y", &[("type1", 3)]),
        operator("o3", "p2", "X", &[("type1", 1)]),
    ];
    let dcs = vec![DataCenterRecord { id: "X".to_string(), region: "eu".to_string() }, DataCenterRecord { id: "Y".to_string(), region: "eu".to_string() }];
    let by_op = get_node_operators_rewardables(&ops, &dcs);
    assert_eq!(by_op.len(), 3);
    assert_eq!(
        by_op[0],
        (
            "o1".to_string(),
            RewardableNodes {
                node_provider_id: "p1".to_string(),
                region: "eu".to_string(),
                rewardables: vec![("type1".to_string(), 2), ("type3".to_string(), 1)]
            }
        )
    );
    let by_provider = get_node_providers_rewardables(&by_op);
    let got: Vec<(String, String, String, u32)> =
        by_provider.iter().map(|((p, (r, t)), c)| (p.clone(), r.clone(), t.clone(), *c)).collect();
    assert_eq!(
        got,
        vec![
            ("p1".to_string(), "eu".to_string(), "type1".to_string(), 5),
            ("p1".to_string(), "eu".to_string(), "type3".to_string(), 1),
            ("p2".to_string(), "eu".to_string(), "type1".to_string(), 1),
        ]
    );
}

#[test]
fn nodes_take_the_types_of_their_operators_in_order() {
    let mut rewardables = vec![(
        "o1".to_string(),
        RewardableNodes { node_provider_id: "p1".to_string(), region: "eu".to_string(), rewardables: vec![("type0".to_string(), 0), ("type1".to_string(), 1)] },
    )];
    let s = store();
    let daily = get_daily_metrics(&s.nodes_metrics);
    let node_operators = vec![("n1".to_string(), "o1".to_string()), ("n2".to_string(), "o1".to_string())];
    let r = get_assigned_nodes_performance(&mut rewardables, daily, &node_operators);
    assert_eq!(r.len(), 2);
    assert_eq!(r[0].0, "n1");
    assert_eq!(r[0].1 .0.node_type, "type1");
    assert_eq!(r[0].1 .0.node_provider_id, "p1");
    assert_eq!(r[0].1 .0.region, "eu");
    assert_eq!(r[0].1 .1.len(), 2);
    assert_eq!(r[1].1 .0.node_type, "unknown:no_rewardable_nodes_found");
    assert!(rewardables[0].1.rewardables.is_empty());
}

fn totals(node: &str, proposed: u64, failed: u64) -> NodeMetrics {
    NodeMetrics { node_id: node.to_string(), num_blocks_proposed_total: proposed, num_block_failures_total: failed }
}

#[test]
fn syncing_stores_daily_metrics_from_the_latest_totals() {
    let mut s = NodeMetricsStore::new();
    assert_eq!(s.refresh_ts(), 1);
    s.sync_node_metrics(vec![(
        "s1".to_string(),
        vec![(10, vec![totals("n1", 5, 1)]), (20, vec![totals("n1", 8, 1), totals("n2", 4, 0)])],
    )]);
    let daily: Vec<(u64, String, u64, u64)> =
        s.nodes_metrics.iter().map(|e| (e.0 .0, e.0 .1.clone(), e.1.num_blocks_proposed, e.1.num_blocks_failed)).collect();
    assert_eq!(daily, vec![(10, "n1".to_string(), 5, 1), (20, "n1".to_string(), 3, 0), (20, "n2".to_string(), 4, 0)]);
    assert_eq!(s.refresh_ts(), 21);
    s.sync_node_metrics(vec![("s2".to_string(), vec![(30, vec![totals("n1", 10, 2)])])]);
    let last = &s.nodes_metrics[3];
    assert_eq!(last.0, (30, "n1".to_string()));
    assert_eq!((last.1.num_blocks_proposed, last.1.num_blocks_failed), (2, 1));
    assert_eq!(last.1.subnet_assigned, "s2");
    assert_eq!((last.1.num_blocks_proposed_total, last.1.num_blocks_failures_total), (10, 2));
}

#[test]
fn daily_metrics_are_the_same_whatever_the_size_of_the_updates() {
    const DAY: u64 = 86_400_000_000_000;
    let totals_by_day = [(7, 5), (10, 6), (15, 6), (25, 50), (10, 6)];
    let history: Vec<(u64, Vec<NodeMetrics>)> =
        totals_by_day.iter().enumerate().map(|(i, (p, f))| (i as u64 * DAY, vec![totals("n1", *p, *f)])).collect();
    for step in 2..=5 {
        let mut s = NodeMetricsStore::new();
        let mut from = 0;
        loop {
            let update: Vec<(u64, Vec<NodeMetrics>)> = history.iter().filter(|(ts, _)| *ts >= from).take(step).cloned().collect();
            if update.is_empty() {
                break;
            }
            s.sync_node_metrics(vec![("s1".to_string(), update)]);
            from = s.refresh_ts();
        }
        let daily: Vec<(u64, u64)> = s.nodes_metrics.iter().map(|e| (e.1.num_blocks_proposed, e.1.num_blocks_failed)).collect();
        // The node is redeployed on the last day: its totals count in full.
        assert_eq!(daily, vec![(7, 5), (3, 1), (5, 0), (10, 44), (10, 6)], "updates of {} days", step);
    }
}

#[test]
fn latest_time_is_the_greatest_time_stored() {
    let mut s = NodeMetricsStore::new();
    s.insert_node_metrics((30, "n1".to_string()), stored("s1", 1, 0));
    s.insert_node_metrics((5, "n9".to_string()), stored("s1", 1, 0));
    s.insert_node_metrics((12, "n0".to_string()), stored("s1", 1, 0));
    assert_eq!(s.latest_ts(), Some(30));
    assert!(s.nodes_metrics.iter().all(|e| e.0 .0 <= 30));
}
