use dre::dec::Dec;
use dre::rewards_manager::{DailyNodeMetrics, NodeRewardRate, RewardsManager};
use rust_decimal::Decimal;
use std::str::FromStr;

#[derive(Clone)]
struct MockedMetrics {
    days: u64,
    proposed_blocks: u64,
    failed_blocks: u64,
}

impl MockedMetrics {
    fn new(days: u64, proposed_blocks: u64, failed_blocks: u64) -> Self {
        MockedMetrics { days, proposed_blocks, failed_blocks }
    }
}

fn daily_mocked_metrics(metrics: Vec<MockedMetrics>) -> Vec<DailyNodeMetrics> {
    let mut i = 0;
    let mut out = Vec::new();
    for m in metrics {
        for _ in 0..m.days {
            i += 1;
            out.push(DailyNodeMetrics::new(i, "2vxsx-fae".to_string(), m.proposed_blocks, m.failed_blocks));
        }
    }
    out
}

fn dec(s: &str) -> Dec {
    let d = Decimal::from_str(s).unwrap();
    Dec { mantissa: d.mantissa(), scale: d.scale() }
}

fn decimal(d: Dec) -> Decimal {
    Decimal::from_i128_with_scale(d.mantissa, d.scale)
}

fn multiplier(m: &mut RewardsManager, metrics: &Vec<DailyNodeMetrics>) -> Decimal {
    decimal(m.node_rewards_multiplier(metrics, metrics.len() as u64).unwrap().0)
}

// The rewards table of the tests: region "A,B" rates type0, type1 and type3 at 1000 XDR permyriad
// with a coefficient of 97%; region "A,B,C" rates type3.1 at 1500 with 95%. A region without its
// own rate for a type takes the rate of its parent region.
const RATE_OUTER: NodeRewardRate = NodeRewardRate { xdr_permyriad_per_node_per_month: 1000, reward_coefficient_percent: Some(97) };
const RATE_INNER: NodeRewardRate = NodeRewardRate { xdr_permyriad_per_node_per_month: 1500, reward_coefficient_percent: Some(95) };

fn cat(region: &str, node_type: &str) -> (String, String) {
    (region.to_string(), node_type.to_string())
}

fn check_rewards_percent(rewards_manager: &mut RewardsManager) {
    // Overall failed = 130 Overall total = 500 Failure rate = 0.26
    let daily_metrics = daily_mocked_metrics(vec![MockedMetrics::new(20, 6, 4), MockedMetrics::new(25, 10, 2)]);
    assert_eq!(multiplier(rewards_manager, &daily_metrics), Decimal::from_str("0.744").unwrap());

    // Overall failed = 45 Overall total = 450 Failure rate = 0.1
    // rewards_reduction = 0.0
    let daily_metrics = daily_mocked_metrics(vec![MockedMetrics::new(1, 400, 20), MockedMetrics::new(1, 5, 25)]);
    assert_eq!(multiplier(rewards_manager, &daily_metrics), Decimal::from_str("1.0").unwrap());

    // Overall failed = 5 Overall total = 10 Failure rate = 0.5
    let daily_metrics = daily_mocked_metrics(vec![MockedMetrics::new(1, 5, 5)]);
    assert_eq!(multiplier(rewards_manager, &daily_metrics), Decimal::from_str("0.36").unwrap());
}

fn check_max_reduction(rewards_manager: &mut RewardsManager) {
    let daily_metrics = daily_mocked_metrics(vec![MockedMetrics::new(10, 5, 95)]);
    assert_eq!(multiplier(rewards_manager, &daily_metrics), Decimal::from_str("0.2").unwrap());
}

fn check_min_reduction(rewards_manager: &mut RewardsManager) {
    let daily_metrics = daily_mocked_metrics(vec![MockedMetrics::new(10, 9, 1)]);
    assert_eq!(multiplier(rewards_manager, &daily_metrics), Decimal::from_str("1.0").unwrap());
}

fn check_gaps(rewards_manager: &mut RewardsManager) {
    let gap = MockedMetrics::new(1, 10, 0);
    let mid = daily_mocked_metrics(vec![MockedMetrics::new(1, 6, 4), gap.clone(), MockedMetrics::new(1, 7, 3)]);
    let left = daily_mocked_metrics(vec![gap.clone(), MockedMetrics::new(1, 6, 4), MockedMetrics::new(1, 7, 3)]);
    let right = daily_mocked_metrics(vec![gap.clone(), MockedMetrics::new(1, 6, 4), MockedMetrics::new(1, 7, 3)]);
    assert_eq!(multiplier(rewards_manager, &mid), Decimal::from_str("0.7866666666666666666666666667").unwrap());
    assert_eq!(multiplier(rewards_manager, &mid), multiplier(rewards_manager, &left));
    assert_eq!(multiplier(rewards_manager, &right), multiplier(rewards_manager, &left));
}

fn check_reversed(rewards_manager: &mut RewardsManager) {
    let mut daily_metrics = daily_mocked_metrics(vec![MockedMetrics::new(1, 5, 5), MockedMetrics::new(5, 6, 4), MockedMetrics::new(25, 10, 0)]);
    let result = multiplier(rewards_manager, &daily_metrics);
    daily_metrics.reverse();
    let result_rev = multiplier(rewards_manager, &daily_metrics);
    assert_eq!(result, Decimal::from_str("1.0").unwrap());
    assert_eq!(result_rev, result);
}

fn check_other_type(rewards_manager: &mut RewardsManager) {
    let assigned = vec![(cat("A,B,C", "type0"), vec![dec("0.5"), dec("0.5")])];
    let rewardable = vec![(cat("A,B,C", "type0"), 4)];
    let rates = vec![Some(RATE_OUTER)];
    let rewards = rewards_manager.node_provider_rewards(&assigned, &rewardable, &rates).unwrap();
    // 4 nodes type0 1000 * 4 = 4000
    assert_eq!(rewards.rewards_xdr_permyriad_no_reduction, 4000);
    // 1000 * 0.5 + 1000 * 0.5 + 1000 * 1 + 1000 * 1 = 3000
    assert_eq!(rewards.rewards_xdr_permyriad, 3000);
}

fn check_type3_coeff(rewards_manager: &mut RewardsManager) {
    let assigned = vec![(cat("A,B,C", "type3.1"), vec![dec("0.5")])];
    let rewardable = vec![(cat("A,B,C", "type3.1"), 4)];
    let rates = vec![Some(RATE_INNER)];
    let rewards = rewards_manager.node_provider_rewards(&assigned, &rewardable, &rates).unwrap();
    // 1500 * 1 + 1500 * 0.95 + 1500 * 0.95 * 0.95 + 1500 * 0.95 * 0.95 * 0.95
    assert_eq!(rewards.rewards_xdr_permyriad_no_reduction, 5564);
    // 1391 * 0.5 + 1391 * 3
    assert_eq!(rewards.rewards_xdr_permyriad, 4869);
}

fn check_type3_mix(rewards_manager: &mut RewardsManager) {
    let assigned = vec![(cat("A,B,D", "type3"), vec![dec("0.5")])];
    // "A,B,C" comes first in the order of the categories
    let rewardable = vec![(cat("A,B,C", "type3.1"), 2), (cat("A,B,D", "type3"), 2)];
    let rates = vec![Some(RATE_INNER), Some(RATE_OUTER)];
    let rewards = rewards_manager.node_provider_rewards(&assigned, &rewardable, &rates).unwrap();
    // 4 nodes type3* avg rewards 1250 avg coefficient 0.96
    assert_eq!(rewards.rewards_xdr_permyriad_no_reduction, 4707);
    // 1176.75 * 0.5 + 1176.75 * 3
    assert_eq!(rewards.rewards_xdr_permyriad, 4119);
}

#[test]
fn rewards_manager_test_rewards_percent() {
    check_rewards_percent(&mut RewardsManager::new());
}

#[test]
fn rewards_manager_test_rewards_percent_max_reduction() {
    check_max_reduction(&mut RewardsManager::new());
}

#[test]
fn rewards_manager_test_rewards_percent_min_reduction() {
    check_min_reduction(&mut RewardsManager::new());
}

#[test]
fn rewards_manager_test_same_rewards_percent_if_gaps_no_penalty() {
    check_gaps(&mut RewardsManager::new());
}

#[test]
fn rewards_manager_test_same_rewards_if_reversed() {
    check_reversed(&mut RewardsManager::new());
}

#[test]
fn rewards_manager_test_np_rewards_other_type() {
    check_other_type(&mut RewardsManager::new());
}

#[test]
fn rewards_manager_test_np_rewards_type3_coeff() {
    check_type3_coeff(&mut RewardsManager::new());
}

#[test]
fn rewards_manager_test_np_rewards_type3_mix() {
    check_type3_mix(&mut RewardsManager::new());
}

#[test]
fn v1_rewards_test_rewards_percent() {
    check_rewards_percent(&mut RewardsManager::new());
}

#[test]
fn v1_rewards_test_rewards_percent_max_reduction() {
    check_max_reduction(&mut RewardsManager::new());
}

#[test]
fn v1_rewards_test_rewards_percent_min_reduction() {
    check_min_reduction(&mut RewardsManager::new());
}

#[test]
fn v1_rewards_test_same_rewards_percent_if_gaps_no_penalty() {
    check_gaps(&mut RewardsManager::new());
}

#[test]
fn v1_rewards_test_same_rewards_if_reversed() {
    check_reversed(&mut RewardsManager::new());
}

#[test]
fn v1_rewards_test_np_rewards_other_type() {
    check_other_type(&mut RewardsManager::new());
}

#[test]
fn v1_rewards_test_np_rewards_type3_coeff() {
    check_type3_coeff(&mut RewardsManager::new());
}

#[test]
fn v1_rewards_test_np_rewards_type3_mix() {
    check_type3_mix(&mut RewardsManager::new());
}

#[test]
fn reduction_is_piecewise_linear() {
    let mut m = RewardsManager::new();
    assert_eq!(decimal(m.rewards_reduction_percent(dec("0.05")).unwrap()), Decimal::ZERO);
    assert_eq!(decimal(m.rewards_reduction_percent(dec("0.7")).unwrap()), Decimal::from_str("0.8").unwrap());
    assert_eq!(decimal(m.rewards_reduction_percent(dec("0.35")).unwrap()), Decimal::from_str("0.4").unwrap());
    assert!(m.logger.entries.len() >= 3);
}

#[test]
fn multiplier_stats_and_unassigned_days() {
    let mut m = RewardsManager::new();
    // 2 assigned days with failure rate 0.5 in a period of 4 days: (2 * 0.36 + 2 * 1) / 4 = 0.68
    let metrics = daily_mocked_metrics(vec![MockedMetrics::new(2, 5, 5)]);
    let (mult, stats) = m.node_rewards_multiplier(&metrics, 4).unwrap();
    assert_eq!(decimal(mult), Decimal::from_str("0.68").unwrap());
    assert_eq!(stats.days_assigned, 2);
    assert_eq!(stats.days_unassigned, 2);
    assert_eq!(stats.blocks_failed, 10);
    assert_eq!(stats.blocks_proposed, 10);
    assert_eq!(stats.blocks_total, 20);
    assert_eq!(decimal(stats.failure_rate), Decimal::from_str("0.5").unwrap());
    assert_eq!(decimal(stats.rewards_reduction), Decimal::from_str("0.64").unwrap());
    // more assigned days than the period has: the unassigned days are negative
    assert!(m.node_rewards_multiplier(&metrics, 1).is_none());
}

#[test]
fn missing_rate_falls_back_to_one() {
    let mut m = RewardsManager::new();
    let rewards = m.node_provider_rewards(&vec![], &vec![(cat("X", "type1"), 3)], &vec![None]).unwrap();
    assert_eq!(rewards.rewards_xdr_permyriad, 3);
    assert_eq!(rewards.rewards_xdr_permyriad_no_reduction, 3);
}

#[test]
fn operations_are_written_with_their_operands() {
    let sum = dre::rewards_log::Operation::Sum(vec![dre::dec::Dec::new(15, 1), dre::dec::Dec::new(2, 0)]);
    assert_eq!(sum.text(), "sum(1.5,2)");
    assert_eq!(dre::rewards_log::Operation::Avg(Vec::new()).text(), "0");
    let sub = dre::rewards_log::Operation::Subtract(dre::dec::Dec::new(12345, 5), dre::dec::Dec::new(1, 0));
    assert_eq!(sub.text(), "0.1234 - 1");
    let set = dre::rewards_log::Operation::SetValue(dre::dec::Dec::new(100, 2));
    assert_eq!(set.text(), "set 1.00");
}

#[test]
fn the_log_numbers_its_entries_one_per_line() {
    let mut log = dre::rewards_log::RewardsPerNodeProviderLog::new();
    log.add_entry(dre::rewards_log::LogEntry::RewardsForNodeProvider("p1".to_string()));
    log.execute("Total", dre::rewards_log::Operation::Multiply(dre::dec::Dec::new(3, 0), dre::dec::Dec::new(25, 1)));
    log.add_entry(dre::rewards_log::LogEntry::AvgType3Rewards("europe".to_string(), dre::dec::Dec::new(7, 0)));
    assert_eq!(
        log.get_log(),
        "Entry 0: RewardsForNodeProvider: principal=p1 \nEntry 1: ExecuteOperation: reason=Total, operation=3 * 2.5, result=7.5 \nEntry 2: Avg. rewards for nodes with type: type3* in region: europe is 7 "
    );
}

#[test]
fn provider_rewards_over_a_period_record_each_provider() {
    let rewardables = vec![
        (("p1".to_string(), ("eu".to_string(), "type1".to_string())), 2u32),
        (("p2".to_string(), ("eu".to_string(), "type1".to_string())), 1u32),
    ];
    let metrics = vec![DailyNodeMetrics::new(1, "s1".to_string(), 10, 0), DailyNodeMetrics::new(2, "s1".to_string(), 10, 0)];
    let perf = vec![(
        "n1".to_string(),
        (dre::nodes_manager::NodeMetadata { node_provider_id: "p1".to_string(), region: "eu".to_string(), node_type: "type1".to_string() }, metrics),
    )];
    let rates = vec![(("eu".to_string(), "type1".to_string()), Some(NodeRewardRate { xdr_permyriad_per_node_per_month: 10_000, reward_coefficient_percent: None }))];
    let period = dre::dates::DateTimeRange { start_secs: 0, end_secs: 2 * 86_400 };
    let mut m = RewardsManager::new();
    let (ts, records) = m.compute_node_providers_rewards(&rewardables, &perf, period, &rates).unwrap();
    assert_eq!(ts, 2 * 86_400 * 1_000_000_000);
    assert_eq!(records.len(), 2);
    assert_eq!(records[0].node_provider, "p1");
    assert_eq!(records[0].node_multipliers.len(), 1);
    assert_eq!(records[0].node_multipliers[0].0, "n1");
    assert_eq!(records[0].node_multipliers[0].1, 1);
    assert_eq!(records[0].node_multipliers[0].2.days_assigned, 2);
    assert_eq!(records[0].rewards.rewards_xdr_permyriad, 20_000);
    assert_eq!(records[0].rewards.rewards_xdr_permyriad_no_reduction, 20_000);
    assert!(records[0].log.starts_with("Entry 0: RewardsForNodeProvider: principal=p1 \nEntry 1: RewardsMultiplier: principal=n1 "));
    assert_eq!(records[1].node_provider, "p2");
    assert!(records[1].node_multipliers.is_empty());
    assert_eq!(records[1].rewards.rewards_xdr_permyriad, 10_000);
    assert!(records[1].log.starts_with("Entry 0: RewardsForNodeProvider: principal=p2 "));
    assert!(m.logger.entries.is_empty());
}

#[test]
fn multiplier_does_not_depend_on_the_order_of_days() {
    let mut m = RewardsManager::new();
    let metrics = daily_mocked_metrics(vec![MockedMetrics::new(2, 5, 5), MockedMetrics::new(1, 9, 1), MockedMetrics::new(3, 2, 7)]);
    let (a, _) = m.node_rewards_multiplier(&metrics, 8).unwrap();
    let shuffled = vec![metrics[3].clone(), metrics[0].clone(), metrics[5].clone(), metrics[2].clone(), metrics[4].clone(), metrics[1].clone()];
    let (b, _) = m.node_rewards_multiplier(&shuffled, 8).unwrap();
    assert_eq!(decimal(a), decimal(b));
}

#[test]
fn decimals_convert_to_their_integer_part() {
    assert_eq!(dre::dec::to_u64(Dec::new(12345, 2)), Some(123));
    assert_eq!(dre::dec::to_u64(Dec::new(7, 0)), Some(7));
    assert_eq!(dre::dec::to_u64(Dec::new(-1, 0)), None);
    assert_eq!(dre::dec::to_u64(Dec { mantissa: 18_446_744_073_709_551_616, scale: 0 }), None);
}

#[test]
fn round_dp_rounds_half_to_even() {
    let parts = |d: Dec| (d.mantissa, d.scale);
    assert_eq!(parts(dre::dec::round_dp(Dec::new(12345, 4), 3)), (1234, 3));
    assert_eq!(parts(dre::dec::round_dp(Dec::new(12355, 4), 3)), (1236, 3));
    assert_eq!(parts(dre::dec::round_dp(Dec::new(-12355, 4), 3)), (-1236, 3));
    assert_eq!(parts(dre::dec::round_dp(Dec::new(12346, 4), 2)), (123, 2));
    assert_eq!(parts(dre::dec::round_dp(Dec::new(12351, 4), 2)), (124, 2));
    assert_eq!(parts(dre::dec::round_dp(Dec::new(125, 2), 3)), (125, 2));
}

#[test]
fn decimals_of_one_scale_add_and_multiply_exactly() {
    let parts = |d: Option<Dec>| d.map(|d| (d.mantissa, d.scale));
    assert_eq!(parts(dre::dec::checked_add(Dec::new(15, 1), Dec::new(25, 1))), Some((40, 1)));
    assert_eq!(parts(dre::dec::checked_sub(Dec::new(15, 1), Dec::new(25, 1))), Some((-10, 1)));
    assert_eq!(parts(dre::dec::checked_mul(Dec::new(15, 1), Dec::new(2, 1))), Some((30, 2)));
    assert_eq!(parts(dre::dec::checked_mul(Dec::new(0, 3), Dec::new(5, 2))), Some((0, 0)));
}
