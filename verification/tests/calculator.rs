use dre::calculator::{calculate_node_provider_rewards, calculate_rewards_from_bases, compute_metrics_in_period, NodeFailureRate, NodeStatus};
use dre::rewards_manager::NodeRewardRate;
use dre::dec::Dec;
use dre::reward_period::NANOS_PER_DAY;
use dre::rewards_input::{subnets_failure_rates, NodeMetricsDaily};
use rust_decimal::Decimal;

fn daily(ts: u64, subnet: &str, proposed: u64, failed: u64) -> NodeMetricsDaily {
    NodeMetricsDaily::new(ts, subnet.to_string(), proposed, failed).unwrap()
}

fn value(d: Dec) -> Decimal {
    Decimal::from_i128_with_scale(d.mantissa, d.scale)
}

fn dec(text: &str) -> Decimal {
    text.parse().unwrap()
}

fn relative(fr: &NodeFailureRate) -> Decimal {
    match fr {
        NodeFailureRate::DefinedRelative(v) => value(*v),
        _ => panic!("not a relative failure rate"),
    }
}

#[test]
fn test_calculates_node_failure_rates_correctly() {
    let metrics = vec![
        ("node-0".to_string(), vec![daily(0, "subnet-2", 90, 10), daily(0, "subnet-1", 1, 0)]),
        ("node-1".to_string(), vec![daily(NANOS_PER_DAY, "subnet-1", 60, 40)]),
    ];
    let subnets_fr = subnets_failure_rates(&metrics);
    let nodes = vec![("node-0".to_string(), Dec::new(1000, 0)), ("node-1".to_string(), Dec::new(1000, 0))];
    let results = calculate_rewards_from_bases(2, 0, &nodes, &metrics, &subnets_fr).unwrap();

    // Subnet 2 is the node's subnet that day: the node proposed and failed the most blocks there.
    let node_0 = &results.nodes_results[0].daily_metrics_processed[0];
    match &node_0.status {
        NodeStatus::Assigned { subnet_assigned } => assert_eq!(subnet_assigned, "subnet-2"),
        NodeStatus::Unassigned => panic!("node 0 is assigned on day 0"),
    }
    assert_eq!(relative(&node_0.failure_rate), dec("0"));
    let node_0_original = compute_metrics_in_period(2, 0, Some(&metrics[0].1));
    match node_0_original[0].failure_rate {
        NodeFailureRate::Defined(v) => assert_eq!(value(v), dec("0.1")),
        _ => panic!("day 0 has a recorded failure rate"),
    }

    let node_1 = &results.nodes_results[1].daily_metrics_processed[1];
    match &node_1.status {
        NodeStatus::Assigned { subnet_assigned } => assert_eq!(subnet_assigned, "subnet-1"),
        NodeStatus::Unassigned => panic!("node 1 is assigned on day 1"),
    }
    let node_1_original = compute_metrics_in_period(2, 0, Some(&metrics[1].1));
    match node_1_original[1].failure_rate {
        NodeFailureRate::Defined(v) => assert_eq!(value(v), dec("0.4")),
        _ => panic!("day 1 has a recorded failure rate"),
    }
    assert_eq!(relative(&node_1.failure_rate), dec("0"));
}

#[test]
fn days_without_metrics_are_unassigned_with_unknown_rates() {
    let metrics = vec![daily(NANOS_PER_DAY + 5, "s1", 80, 20)];
    let days = compute_metrics_in_period(3, 0, Some(&metrics));
    assert_eq!(days.len(), 3);
    assert!(matches!(days[0].status, NodeStatus::Unassigned));
    assert!(matches!(days[0].failure_rate, NodeFailureRate::Undefined));
    assert_eq!(days[1].num_blocks_proposed, 80);
    assert!(matches!(days[2].failure_rate, NodeFailureRate::Undefined));
    assert!(compute_metrics_in_period(2, 0, None).iter().all(|d| matches!(d.status, NodeStatus::Unassigned)));
}

#[test]
fn unknown_rates_are_extrapolated_and_small_providers_get_full_rewards() {
    let metrics = vec![("n1".to_string(), vec![daily(0, "s1", 60, 40)])];
    let subnets_fr = subnets_failure_rates(&metrics);
    let nodes = vec![("n1".to_string(), Dec::new(1000, 0))];
    let results = calculate_rewards_from_bases(2, 0, &nodes, &metrics, &subnets_fr).unwrap();
    assert_eq!(value(results.extrapolated_fr), dec("0"));
    let n1 = &results.nodes_results[0];
    match n1.daily_metrics_processed[1].failure_rate {
        NodeFailureRate::Extrapolated(v) => assert_eq!(value(v), dec("0")),
        _ => panic!("day 1 is extrapolated"),
    }
    assert_eq!(value(n1.performance_multiplier), dec("1"));
    assert_eq!(value(results.rewards_total), dec("1000"));
}

#[test]
fn rewards_of_larger_providers_follow_performance() {
    let metrics: Vec<(String, Vec<NodeMetricsDaily>)> = vec![
        ("n1".to_string(), vec![daily(0, "s1", 60, 40)]),
        ("n2".to_string(), vec![daily(0, "s1", 100, 0)]),
        ("n3".to_string(), vec![daily(0, "s1", 100, 0)]),
        ("n4".to_string(), vec![daily(0, "s1", 100, 0)]),
        ("n5".to_string(), vec![daily(0, "s1", 100, 0)]),
    ];
    let subnets_fr = subnets_failure_rates(&metrics);
    let nodes: Vec<(String, Dec)> = (1..=5).map(|i| (format!("n{}", i), Dec::new(1000, 0))).collect();
    let results = calculate_rewards_from_bases(1, 0, &nodes, &metrics, &subnets_fr).unwrap();
    // The subnet's failure rate is 0 (75th percentile), so n1 keeps 0.4: the reduction is
    // (0.4 - 0.1) / 0.5 * 0.8 = 0.48.
    assert_eq!(value(results.extrapolated_fr), dec("0.08"));
    let n1 = &results.nodes_results[0];
    assert_eq!(value(n1.average_relative_fr), dec("0.4"));
    assert_eq!(value(n1.rewards_reduction), dec("0.48"));
    assert_eq!(value(n1.performance_multiplier), dec("0.52"));
    assert_eq!(value(n1.adjusted_rewards), dec("520"));
    assert_eq!(value(results.nodes_results[1].adjusted_rewards), dec("1000"));
    assert_eq!(value(results.rewards_total), dec("4520"));
}

fn rate(xdr: u64, coefficient: i32) -> Option<NodeRewardRate> {
    Some(NodeRewardRate { xdr_permyriad_per_node_per_month: xdr, reward_coefficient_percent: Some(coefficient) })
}

#[test]
fn base_rewards_come_from_the_rewards_table() {
    let table = vec![(("A,B".to_string(), "type1".to_string()), rate(1000, 97))];
    let nodes = vec![
        ("n1".to_string(), "A,B".to_string(), "type1".to_string()),
        ("n2".to_string(), "X".to_string(), "type1".to_string()),
    ];
    let metrics: Vec<(String, Vec<NodeMetricsDaily>)> = Vec::new();
    let results = calculate_node_provider_rewards(3, 0, &nodes, &table, &metrics, &Vec::new()).unwrap();
    assert_eq!(value(results.nodes_results[0].base_rewards), dec("1000"));
    // Without a rate in the table, a node's base rewards are 1.
    assert_eq!(value(results.nodes_results[1].base_rewards), dec("1"));
    assert_eq!(value(results.rewards_total), dec("1001"));
}

#[test]
fn type3_nodes_of_a_country_share_reduced_average_rewards() {
    let table = vec![
        (("Europe,Switzerland,Zurich".to_string(), "type3".to_string()), rate(1000, 90)),
        (("Europe,Switzerland,Geneva".to_string(), "type3.1".to_string()), rate(2000, 70)),
    ];
    let nodes = vec![
        ("n1".to_string(), "Europe,Switzerland,Zurich".to_string(), "type3".to_string()),
        ("n2".to_string(), "Europe,Switzerland,Geneva".to_string(), "type3.1".to_string()),
    ];
    let metrics: Vec<(String, Vec<NodeMetricsDaily>)> = Vec::new();
    let results = calculate_node_provider_rewards(3, 0, &nodes, &table, &metrics, &Vec::new()).unwrap();
    // Average rewards 1500 and average coefficient 0.8: (1500 + 1500 * 0.8) / 2 = 1350.
    assert_eq!(value(results.nodes_results[0].base_rewards), dec("1350"));
    assert_eq!(value(results.nodes_results[1].base_rewards), dec("1350"));
    assert_eq!(value(results.rewards_total), dec("2700"));
}

fn scenario_1_metrics() -> Vec<(String, Vec<NodeMetricsDaily>)> {
    // Each inner vector is one day (days 0 through 3): (subnet, node, blocks proposed, blocks failed),
    // 100 blocks for each node.
    let input: Vec<Vec<(u64, u64, u64, u64)>> = vec![
        vec![(1, 1, 70, 30), (1, 2, 60, 40), (1, 3, 50, 50), (2, 5, 66, 34), (2, 6, 80, 20), (2, 7, 80, 20)],
        vec![(1, 1, 80, 20), (1, 2, 90, 10), (1, 3, 100, 0), (2, 4, 50, 50), (2, 5, 0, 100), (2, 6, 30, 70), (2, 7, 30, 70)],
        vec![(1, 1, 90, 10), (1, 2, 80, 20), (1, 3, 70, 30), (2, 4, 60, 40), (2, 5, 0, 100), (2, 6, 80, 20), (2, 7, 90, 10)],
        vec![(1, 2, 80, 20), (2, 3, 70, 30), (2, 4, 60, 40), (2, 6, 30, 70), (2, 7, 50, 50)],
    ];
    let mut by_node: Vec<(String, Vec<NodeMetricsDaily>)> = Vec::new();
    for (day, entries) in input.into_iter().enumerate() {
        for (subnet, node, proposed, failed) in entries {
            let id = format!("node-{}", node);
            let m = daily(day as u64 * NANOS_PER_DAY, &format!("subnet-{}", subnet), proposed, failed);
            match by_node.iter_mut().find(|(n, _)| *n == id) {
                Some((_, v)) => v.push(m),
                None => by_node.push((id, vec![m])),
            }
        }
    }
    by_node
}

#[test]
fn test_scenario_1() {
    let metrics = scenario_1_metrics();
    let subnets_fr = subnets_failure_rates(&metrics);
    let rates_of = |subnet: &str| -> Vec<Decimal> {
        subnets_fr.iter().find(|(s, _)| s == subnet).unwrap().1.iter().map(|r| value(r.value)).collect()
    };
    assert_eq!(rates_of("subnet-1"), vec![dec("0.5"), dec("0.2"), dec("0.3"), dec("0.2")]);
    assert_eq!(rates_of("subnet-2"), vec![dec("0.34"), dec("0.7"), dec("0.4"), dec("0.5")]);

    let nodes: Vec<(String, Dec)> = metrics.iter().map(|(n, _)| (n.clone(), Dec::new(1000, 0))).collect();
    let results = calculate_rewards_from_bases(4, 0, &nodes, &metrics, &subnets_fr).unwrap();
    // Node 3 was in subnet 1 on day 0 with 0.5, as its subnet: relative 0.
    let node_3 = results.nodes_results.iter().find(|n| n.node_id == "node-3").unwrap();
    assert_eq!(relative(&node_3.daily_metrics_processed[0].failure_rate), dec("0"));
    // Node 1 had 0.3 against its subnet's 0.5 on day 0: relative 0 (never below zero).
    let node_1 = results.nodes_results.iter().find(|n| n.node_id == "node-1").unwrap();
    assert_eq!(relative(&node_1.daily_metrics_processed[0].failure_rate), dec("0"));
    // Node 5 had 1.0 against its subnet's 0.7 on day 1: relative 0.3.
    let node_5 = results.nodes_results.iter().find(|n| n.node_id == "node-5").unwrap();
    assert_eq!(relative(&node_5.daily_metrics_processed[1].failure_rate), dec("0.3"));
}
