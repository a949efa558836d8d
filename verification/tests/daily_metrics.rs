use dre::daily_metrics::{calculate_daily_metrics, grouped_by_node, node_metrics_storable, NodeMetrics};

fn metrics(node: &str, proposed: u64, failed: u64) -> NodeMetrics {
    NodeMetrics { node_id: node.to_string(), num_blocks_proposed_total: proposed, num_block_failures_total: failed }
}

#[test]
fn daily_metrics_are_the_difference_of_totals() {
    assert_eq!(calculate_daily_metrics(10, 2, 15, 3), (5, 1));
    assert_eq!(calculate_daily_metrics(0, 0, 7, 1), (7, 1));
    assert_eq!(calculate_daily_metrics(4, 4, 4, 4), (0, 0));
}

#[test]
fn redeployed_node_counts_its_totals_in_full() {
    assert_eq!(calculate_daily_metrics(10, 2, 5, 3), (5, 3));
    assert_eq!(calculate_daily_metrics(10, 5, 12, 1), (12, 1));
}

#[test]
fn storable_metrics_follow_time_order() {
    let grouped = vec![
        (300, "subnet-b".to_string(), metrics("n1", 30, 6)),
        (100, "subnet-a".to_string(), metrics("n1", 10, 1)),
        (200, "subnet-a".to_string(), metrics("n1", 25, 2)),
    ];
    let stored = node_metrics_storable("n1".to_string(), grouped, 4, 0);
    assert_eq!(stored.len(), 3);
    assert_eq!(stored[0].0, (100, "n1".to_string()));
    assert_eq!((stored[0].1.num_blocks_proposed, stored[0].1.num_blocks_failed), (6, 1));
    assert_eq!(stored[1].0 .0, 200);
    assert_eq!((stored[1].1.num_blocks_proposed, stored[1].1.num_blocks_failed), (15, 1));
    assert_eq!(stored[2].1.subnet_assigned, "subnet-b");
    assert_eq!((stored[2].1.num_blocks_proposed, stored[2].1.num_blocks_failed), (5, 4));
    assert_eq!((stored[2].1.num_blocks_proposed_total, stored[2].1.num_blocks_failures_total), (30, 6));
}

#[test]
fn reports_are_grouped_by_node_in_order_of_first_report() {
    let subnet_metrics = vec![
        ("s1".to_string(), vec![(1, vec![metrics("b", 1, 0), metrics("a", 2, 0)]), (2, vec![metrics("b", 3, 1)])]),
        ("s2".to_string(), vec![(2, vec![metrics("c", 5, 0), metrics("a", 4, 0)])]),
    ];
    let g = grouped_by_node(subnet_metrics);
    let ids: Vec<&str> = g.iter().map(|(n, _)| n.as_str()).collect();
    assert_eq!(ids, vec!["b", "a", "c"]);
    assert_eq!(g[0].1.len(), 2);
    assert_eq!(g[0].1[1].0, 2);
    assert_eq!(g[1].1.len(), 2);
    assert_eq!(g[1].1[1].1, "s2");
    assert_eq!(g[1].1[1].2.num_blocks_proposed_total, 4);
    assert_eq!(g[2].1.len(), 1);
}
