use dre::metrics_store::{MetricsManager, SubnetUpdate};
use dre::reward_period::{DayUTC, NANOS_PER_DAY};
use dre::subnet_metrics::NodeMetricsTotals;

const ONE_DAY_NANOS: u64 = NANOS_PER_DAY;

fn subnet_id(id: u64) -> String {
    format!("subnet-{}", id)
}

fn node_metrics_history_gen(days: u64) -> Vec<(u64, Vec<NodeMetricsTotals>)> {
    (0..days).map(|i| (i * ONE_DAY_NANOS, Vec::new())).collect()
}

fn error() -> SubnetUpdate {
    Err("Error".to_string())
}

/// Requests the history of each subnet and takes the answers, as the canister does.
fn update_subnets_metrics(mm: &mut MetricsManager, subnets: Vec<String>, answer: &dyn Fn(&str, u64) -> SubnetUpdate) {
    for (subnet, from) in mm.fetch_requests(&subnets) {
        let update = answer(&subnet, from);
        mm.update_subnet(subnet, update);
    }
}

#[test]
fn tests_subnet_metrics_added_correctly() {
    let days = 45;
    let mut mm = MetricsManager::new();
    let subnet_1 = subnet_id(1);
    update_subnets_metrics(&mut mm, vec![subnet_1.clone()], &|_, _| Ok(node_metrics_history_gen(days)));
    for i in 0..days {
        assert!(mm.metrics_at(i * ONE_DAY_NANOS, &subnet_1).is_some());
    }
}

#[test]
fn tests_subnets_to_retry_filled() {
    let subnet_1 = subnet_id(1);
    let mut mm = MetricsManager::new();
    update_subnets_metrics(&mut mm, vec![subnet_1.clone()], &|_, _| error());
    assert_eq!(mm.retry_count(&subnet_1), Some(1));

    // Retry the subnet and success
    update_subnets_metrics(&mut mm, vec![subnet_1.clone()], &|_, _| Ok(node_metrics_history_gen(2)));
    assert_eq!(mm.retry_count(&subnet_1), None);
}

#[test]
fn tests_multiple_subnets_metrics_added_correctly() {
    let days = 30;
    let mut mm = MetricsManager::new();
    let subnet_1 = subnet_id(1);
    let subnet_2 = subnet_id(2);
    update_subnets_metrics(&mut mm, vec![subnet_1.clone(), subnet_2.clone()], &|_, _| Ok(node_metrics_history_gen(days)));
    for subnet in &[subnet_1, subnet_2] {
        for i in 0..days {
            assert!(mm.metrics_at(i * ONE_DAY_NANOS, subnet).is_some(), "Metrics missing for subnet {:?}", subnet);
        }
    }
}

#[test]
fn tests_retry_count_increments_on_failure() {
    let mut mm = MetricsManager::new();
    let subnet_1 = subnet_id(1);
    for retry_attempt in 1..=3 {
        update_subnets_metrics(&mut mm, vec![subnet_1.clone()], &|_, _| Err("Temporary error".to_string()));
        assert_eq!(mm.retry_count(&subnet_1), Some(retry_attempt), "Retry count should be {}", retry_attempt);
    }
}

#[test]
fn tests_no_metrics_added_when_call_fails() {
    let mut mm = MetricsManager::new();
    let subnet_1 = subnet_id(1);
    update_subnets_metrics(&mut mm, vec![subnet_1], &|_, _| error());
    assert!(mm.subnets_metrics.is_empty(), "Metrics should be empty after a failed call");
}

#[test]
fn tests_partial_failures_are_handled_correctly() {
    let subnet_1 = subnet_id(1);
    let subnet_2 = subnet_id(2);
    let mut mm = MetricsManager::new();
    let failing = subnet_1.clone();
    update_subnets_metrics(&mut mm, vec![subnet_1.clone(), subnet_2.clone()], &move |subnet, _| {
        if subnet == failing {
            error()
        } else {
            Ok(node_metrics_history_gen(1))
        }
    });
    assert_eq!(mm.retry_count(&subnet_1), Some(1), "Subnet 1 should be in retry list");
    assert!(mm.retry_count(&subnet_2).is_none(), "Subnet 2 should not be in retry list");
    assert!(mm.metrics_at(0, &subnet_1).is_none(), "Metrics should not be present for subnet 1");
    assert!(mm.metrics_at(0, &subnet_2).is_some(), "Metrics should be present for subnet 2");
}

#[test]
fn requests_start_at_the_last_stored_time_of_each_subnet() {
    let mut mm = MetricsManager::new();
    let s1 = subnet_id(1);
    let s2 = subnet_id(2);
    assert_eq!(mm.fetch_requests(&vec![s1.clone(), s2.clone(), s1.clone()]), vec![(s1.clone(), 0), (s2.clone(), 0)]);
    mm.update_subnet(s1.clone(), Ok(vec![(5, Vec::new()), (9, Vec::new())]));
    mm.update_subnet(s2.clone(), Ok(Vec::new()));
    assert_eq!(mm.fetch_requests(&vec![s2.clone(), s1.clone()]), vec![(s2.clone(), 0), (s1.clone(), 9)]);
}

#[test]
fn reports_are_kept_in_key_order_and_replaced_under_the_same_key() {
    let mut mm = MetricsManager::new();
    let node = |p: u64| vec![NodeMetricsTotals { node_id: "n1".to_string(), num_blocks_proposed_total: p, num_blocks_failed_total: 0 }];
    mm.update_subnet("b".to_string(), Ok(vec![(10, node(2)), (20, node(5))]));
    mm.update_subnet("a".to_string(), Ok(vec![(20, node(3))]));
    mm.update_subnet("b".to_string(), Ok(vec![(15, node(9)), (20, node(14))]));
    let keys: Vec<(u64, String)> = mm.subnets_metrics.iter().map(|r| (r.ts, r.subnet_id.clone())).collect();
    assert_eq!(keys, vec![(10, "b".to_string()), (15, "b".to_string()), (20, "a".to_string()), (20, "b".to_string())]);
    assert_eq!(mm.metrics_at(10, "b").unwrap()[0].num_blocks_proposed, 2);
    assert_eq!(mm.metrics_at(15, "b").unwrap()[0].num_blocks_proposed, 9);
    assert_eq!(mm.metrics_at(20, "b").unwrap()[0].num_blocks_proposed, 5);
    assert_eq!(mm.metrics_at(20, "a").unwrap()[0].num_blocks_proposed, 3);
    assert_eq!(mm.subnets_to_retry_ids(), Vec::<String>::new());
    mm.update_subnet("c".to_string(), Err("down".to_string()));
    assert_eq!(mm.subnets_to_retry_ids(), vec!["c".to_string()]);
}

#[test]
fn a_report_at_the_last_time_only_gives_the_totals_to_count_against() {
    let mut mm = MetricsManager::new();
    let node = |p: u64, f: u64| vec![NodeMetricsTotals { node_id: "n1".to_string(), num_blocks_proposed_total: p, num_blocks_failed_total: f }];
    mm.update_subnet("s1".to_string(), Ok(vec![(0, node(7, 5)), (ONE_DAY_NANOS, node(10, 6))]));
    mm.update_subnet("s1".to_string(), Ok(vec![(ONE_DAY_NANOS, node(10, 6)), (2 * ONE_DAY_NANOS, node(15, 6))]));
    let stored: Vec<(u64, u64, u64)> =
        mm.subnets_metrics.iter().map(|r| (r.ts, r.nodes_metrics[0].num_blocks_proposed, r.nodes_metrics[0].num_blocks_failed)).collect();
    assert_eq!(stored, vec![(0, 7, 5), (ONE_DAY_NANOS, 3, 1), (2 * ONE_DAY_NANOS, 5, 0)]);
}

#[test]
fn daily_metrics_come_from_the_stored_reports() {
    let mut mm = MetricsManager::new();
    let node = |p: u64, f: u64| vec![NodeMetricsTotals { node_id: "n1".to_string(), num_blocks_proposed_total: p, num_blocks_failed_total: f }];
    mm.update_subnet(
        "s1".to_string(),
        Ok(vec![(5, node(7, 5)), (ONE_DAY_NANOS + 5, node(10, 6)), (2 * ONE_DAY_NANOS + 5, node(15, 6))]),
    );
    let from = DayUTC::from(ONE_DAY_NANOS);
    let to = DayUTC::from(2 * ONE_DAY_NANOS);
    let daily = mm.daily_metrics_by_subnet(from, to);
    let got: Vec<(u64, u64)> = daily.iter().map(|(_, v)| (v[0].num_blocks_proposed, v[0].num_blocks_failed)).collect();
    assert_eq!(got, vec![(3, 1), (5, 0)]);
}

/// The reports of subnets, each with its time, its subnet and the totals of its nodes.
struct HistoryTracker {
    responses: Vec<(u64, String, Vec<NodeMetricsTotals>)>,
    current_subnet: String,
}

impl HistoryTracker {
    fn new() -> Self {
        HistoryTracker { responses: Vec::new(), current_subnet: String::new() }
    }

    /// Makes `subnet` the current one; it reports no nodes at the times reported so far.
    fn with_subnet(mut self, subnet: &str) -> Self {
        self.current_subnet = subnet.to_string();
        let mut times: Vec<u64> = self.responses.iter().map(|(t, _, _)| *t).collect();
        times.dedup();
        for t in times {
            if !self.responses.iter().any(|(rt, s, _)| *rt == t && s == subnet) {
                self.responses.push((t, subnet.to_string(), Vec::new()));
            }
        }
        self.responses.sort_by_key(|(t, _, _)| *t);
        self
    }

    fn add_node_metrics(mut self, node: &str, from_ts: u64, totals: Vec<(u64, u64)>) -> Self {
        let subnet = self.current_subnet.clone();
        for (i, (proposed, failed)) in totals.into_iter().enumerate() {
            let ts = from_ts + (i as u64) * ONE_DAY_NANOS;
            let metrics = NodeMetricsTotals { node_id: node.to_string(), num_blocks_proposed_total: proposed, num_blocks_failed_total: failed };
            match self.responses.iter_mut().find(|(t, s, _)| *t == ts && *s == subnet) {
                Some(entry) => entry.2.push(metrics),
                None => self.responses.push((ts, subnet.clone(), vec![metrics])),
            }
        }
        self.responses.sort_by_key(|(t, _, _)| *t);
        self
    }

    /// The reports of `subnet` of the `step` days from `from` on.
    fn next(&self, step: usize, subnet: &str, from: u64) -> SubnetUpdate {
        Ok(self
            .responses
            .iter()
            .filter(|(t, s, _)| s == subnet && *t >= from && *t < from + (step as u64) * ONE_DAY_NANOS)
            .map(|(t, _, m)| (*t, m.clone()))
            .collect())
    }
}

const MAX_TIMES: usize = 20;

fn daily_metrics_correct_for_update_size(size: usize) {
    let tracker = HistoryTracker::new().with_subnet(&subnet_id(1)).add_node_metrics("node-1", 0, vec![(7, 5), (10, 6), (15, 6), (25, 50), (10, 6)]);
    let mut mm = MetricsManager::new();
    for _ in 0..MAX_TIMES {
        update_subnets_metrics(&mut mm, vec![subnet_id(1)], &|s, from| tracker.next(size, s, from));
    }
    let node_1_daily_metrics: Vec<(u64, u64)> =
        mm.subnets_metrics.iter().map(|r| (r.nodes_metrics[0].num_blocks_proposed, r.nodes_metrics[0].num_blocks_failed)).collect();
    // (7, 5), then (10 - 7, 6 - 5), (15 - 10, 6 - 6), (25 - 15, 50 - 6), and (10, 6) once the
    // node is redeployed to the same subnet.
    assert_eq!(node_1_daily_metrics, vec![(7, 5), (3, 1), (5, 0), (10, 44), (10, 6)]);
}

#[test]
fn daily_metrics_correct_different_update_size() {
    daily_metrics_correct_for_update_size(2);
    daily_metrics_correct_for_update_size(3);
    daily_metrics_correct_for_update_size(4);
    daily_metrics_correct_for_update_size(5);
}

#[test]
fn daily_metrics_are_correctly_computed_over_multiple_updates() {
    for size in 2..=5 {
        daily_metrics_correct_for_update_size(size);
    }
}

/// The daily metrics of `node` from `from` to `to`: its subnet, the day and its blocks proposed
/// and failed, in order.
fn node_daily(mm: &MetricsManager, node: &str, from: u64, to: u64) -> Vec<(String, DayUTC, u64, u64)> {
    let mut r = Vec::new();
    for ((subnet, day), nodes) in mm.daily_metrics_by_subnet(DayUTC::from(from), DayUTC::from(to)) {
        if let Some(m) = nodes.iter().find(|m| m.node_id == node) {
            r.push((subnet.clone(), day, m.num_blocks_proposed, m.num_blocks_failed));
        }
    }
    r
}

#[test]
fn daily_metrics_correct_2_subs() {
    let subnet_1 = subnet_id(1);
    let subnet_2 = subnet_id(2);
    let tracker = HistoryTracker::new()
        .with_subnet(&subnet_1)
        .add_node_metrics("node-1", 0, vec![(1, 1), (2, 2), (3, 3)])
        .with_subnet(&subnet_2)
        .add_node_metrics("node-1", 3 * ONE_DAY_NANOS, vec![(4, 4), (6, 6), (8, 8)]);
    let mut mm = MetricsManager::new();
    for _ in 0..MAX_TIMES {
        update_subnets_metrics(&mut mm, vec![subnet_1.clone(), subnet_2.clone()], &|s, from| tracker.next(2, s, from));
    }
    let node_1_daily_metrics = node_daily(&mm, "node-1", 0, 8 * ONE_DAY_NANOS);
    assert_eq!(node_1_daily_metrics.len(), 6);
    for (day, (subnet, _, proposed, failed)) in node_1_daily_metrics.into_iter().enumerate() {
        match day {
            0 | 1 | 2 => {
                assert_eq!(subnet, subnet_1);
                assert_eq!((proposed, failed), (1, 1));
            }
            3 => {
                assert_eq!(subnet, subnet_2);
                assert_eq!((proposed, failed), (4, 4));
            }
            _ => {
                assert_eq!(subnet, subnet_2);
                assert_eq!((proposed, failed), (2, 2));
            }
        }
    }
}

#[test]
fn daily_metrics_correct_overlapping_days() {
    let subnet_1 = subnet_id(1);
    let subnet_2 = subnet_id(2);
    let tracker = HistoryTracker::new()
        .with_subnet(&subnet_1)
        .add_node_metrics("node-1", 0, vec![(1, 1), (2, 2), (3, 3)])
        .with_subnet(&subnet_2)
        // Node 1 redeployed to subnet 2 on day 2
        .add_node_metrics("node-1", 2 * ONE_DAY_NANOS, vec![(4, 4), (6, 6), (8, 8)])
        .add_node_metrics("node-1", 2 * ONE_DAY_NANOS, vec![(1, 1), (3, 3), (6, 6)]);
    let mut mm = MetricsManager::new();
    for _ in 0..MAX_TIMES {
        update_subnets_metrics(&mut mm, vec![subnet_1.clone(), subnet_2.clone()], &|s, from| tracker.next(2, s, from));
    }
    let day_2 = DayUTC::from(2 * ONE_DAY_NANOS);
    let daily_metrics = node_daily(&mm, "node-1", 0, 4 * ONE_DAY_NANOS);
    let overlapping = |s: &str| daily_metrics.iter().find(|(sub, d, _, _)| sub == s && *d == day_2).map(|(_, _, p, f)| (*p, *f));
    assert_eq!(overlapping(&subnet_1), Some((1, 1)));
    assert_eq!(overlapping(&subnet_2), Some((4, 4)));
}
