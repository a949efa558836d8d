use dre::dec::Dec;
use dre::reward_period::{RewardPeriod, NANOS_PER_DAY};
use dre::rewards_input::{subnets_failure_rates, validate_input, NodeMetricsDaily, RewardCalculationError};

const NODE_1: &str = "3jo2y-lqbaa-aaaaa-aaaap-2ai";
const SUBNET_1: &str = "subnet-1";
const SUBNET_2: &str = "subnet-2";

fn daily(ts: u64, subnet: &str, proposed: u64, failed: u64) -> NodeMetricsDaily {
    NodeMetricsDaily::new(ts, subnet.to_string(), proposed, failed).unwrap()
}

fn value(d: Dec) -> f64 {
    d.mantissa as f64 / 10f64.powi(d.scale as i32)
}

fn create_metrics_by_node() -> Vec<(String, Vec<NodeMetricsDaily>)> {
    vec![(NODE_1.to_string(), vec![daily(NANOS_PER_DAY, SUBNET_1, 0, 0)])]
}

#[test]
fn test_metrics_out_of_range() {
    let reward_period = RewardPeriod::new(NANOS_PER_DAY, 30 * NANOS_PER_DAY).unwrap();
    let mut metrics_by_node = create_metrics_by_node();
    let metrics_out_of_range = daily(0, SUBNET_1, 0, 0);
    metrics_by_node[0].1.push(metrics_out_of_range.clone());
    let result = validate_input(&reward_period, &metrics_by_node);
    assert_eq!(
        result,
        Err(RewardCalculationError::NodeMetricsOutOfRange {
            node_id: NODE_1.to_string(),
            timestamp: metrics_out_of_range.ts.get(),
            reward_period,
        })
    );
}

#[test]
fn test_same_day_metrics_same_sub() {
    let reward_period = RewardPeriod::new(NANOS_PER_DAY, 30 * NANOS_PER_DAY).unwrap();
    let mut metrics_by_node = create_metrics_by_node();
    metrics_by_node[0].1.push(daily(NANOS_PER_DAY, SUBNET_1, 0, 0));
    let result = validate_input(&reward_period, &metrics_by_node);
    assert_eq!(result, Err(RewardCalculationError::DuplicateMetrics(NODE_1.to_string())));
}

#[test]
fn test_same_day_metrics_different_subs() {
    let reward_period = RewardPeriod::new(NANOS_PER_DAY, 30 * NANOS_PER_DAY).unwrap();
    let mut metrics_by_node = create_metrics_by_node();
    metrics_by_node[0].1.push(daily(NANOS_PER_DAY, SUBNET_2, 0, 0));
    let result = validate_input(&reward_period, &metrics_by_node);
    assert_eq!(result, Ok(()));
}

#[test]
fn failure_rate_is_failed_over_all_blocks() {
    let m = daily(5, SUBNET_1, 3, 1);
    assert_eq!((m.failure_rate.mantissa, m.failure_rate.scale), (25, 2));
    assert_eq!(m.ts.get(), NANOS_PER_DAY - 1);
    let none = daily(5, SUBNET_1, 0, 0);
    assert_eq!((none.failure_rate.mantissa, none.failure_rate.scale), (Dec::zero().mantissa, 0));
}

#[test]
fn metrics_of_the_same_day_must_not_repeat_across_entries_only() {
    let reward_period = RewardPeriod::new(NANOS_PER_DAY, 30 * NANOS_PER_DAY).unwrap();
    let metrics_by_node = vec![
        ("a".to_string(), vec![daily(NANOS_PER_DAY, SUBNET_1, 1, 0), daily(2 * NANOS_PER_DAY, SUBNET_1, 1, 0)]),
        ("b".to_string(), vec![daily(NANOS_PER_DAY, SUBNET_1, 1, 0)]),
    ];
    assert_eq!(validate_input(&reward_period, &metrics_by_node), Ok(()));
}

#[test]
fn subnet_failure_rate_is_the_75th_percentile_of_its_nodes() {
    let day1 = NANOS_PER_DAY;
    let day2 = 2 * NANOS_PER_DAY;
    let metrics_by_node = vec![
        ("n1".to_string(), vec![daily(day2, SUBNET_2, 1, 0), daily(day1, SUBNET_1, 1, 0)]),
        ("n2".to_string(), vec![daily(day1, SUBNET_1, 1, 1)]),
        ("n3".to_string(), vec![daily(day1, SUBNET_1, 3, 1)]),
        ("n4".to_string(), vec![daily(day1, SUBNET_1, 0, 1), daily(day2, SUBNET_1, 1, 1)]),
    ];
    let rates = subnets_failure_rates(&metrics_by_node);
    assert_eq!(rates.len(), 2);
    assert_eq!(rates[0].0, SUBNET_2);
    assert_eq!(rates[0].1.len(), 1);
    assert_eq!(rates[0].1[0].ts.get(), 3 * NANOS_PER_DAY - 1);
    assert_eq!(rates[0].1[0].value.mantissa, 0);
    assert_eq!(rates[1].0, SUBNET_1);
    assert_eq!(rates[1].1.len(), 2);
    // Day 1: rates 0, 0.5, 0.25, 1 ordered 0, 0.25, 0.5, 1; the third of four is the percentile.
    assert_eq!(rates[1].1[0].ts.get(), 2 * NANOS_PER_DAY - 1);
    assert_eq!(value(rates[1].1[0].value), 0.5);
    assert_eq!(value(rates[1].1[1].value), 0.5);
}
