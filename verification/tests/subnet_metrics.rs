use dre::reward_period::{DayUTC, NANOS_PER_DAY};
use dre::subnet_metrics::{daily_metrics_by_subnet, NodeMetricsDailyRaw, SubnetMetricsStored};

fn daily(node: &str, proposed: u64, failed: u64) -> NodeMetricsDailyRaw {
    NodeMetricsDailyRaw { node_id: node.to_string(), num_blocks_proposed: proposed, num_blocks_failed: failed }
}

fn report(ts: u64, subnet: &str, nodes: Vec<NodeMetricsDailyRaw>) -> SubnetMetricsStored {
    SubnetMetricsStored { ts, subnet_id: subnet.to_string(), nodes_metrics: nodes }
}

fn raw(v: &[NodeMetricsDailyRaw]) -> Vec<(String, u64, u64)> {
    v.iter().map(|x| (x.node_id.clone(), x.num_blocks_proposed, x.num_blocks_failed)).collect()
}

#[test]
fn daily_metrics_are_the_stored_reports_of_the_days() {
    let d = NANOS_PER_DAY;
    let stored = vec![
        report(5, "s1", vec![daily("n1", 1, 0)]),
        report(d + 5, "s1", vec![daily("n1", 9, 1)]),
        report(2 * d + 5, "s1", vec![daily("n1", 5, 1), daily("n2", 3, 0)]),
        report(3 * d + 5, "s1", vec![daily("n1", 5, 0)]),
        report(4 * d + 5, "s1", vec![daily("n1", 10, 0)]),
    ];
    let from = DayUTC::from(2 * d + 5);
    let to = DayUTC::from(3 * d + 5);
    let r = daily_metrics_by_subnet(&stored, from, to);
    assert_eq!(r.len(), 2);
    assert_eq!(r[0].0, ("s1".to_string(), from));
    assert_eq!(raw(&r[0].1), vec![("n1".to_string(), 5, 1), ("n2".to_string(), 3, 0)]);
    assert_eq!(r[1].0, ("s1".to_string(), to));
    assert_eq!(raw(&r[1].1), vec![("n1".to_string(), 5, 0)]);
}

#[test]
fn reports_of_two_subnets_on_a_day_are_kept_apart() {
    let d = NANOS_PER_DAY;
    let stored = vec![report(d + 7, "s1", vec![daily("n1", 4, 1)]), report(d + 9, "s2", vec![daily("n2", 6, 0)])];
    let day = DayUTC::from(d + 7);
    let r = daily_metrics_by_subnet(&stored, day, day);
    assert_eq!(r.len(), 2);
    assert_eq!(r[0].0, ("s1".to_string(), day));
    assert_eq!(raw(&r[0].1), vec![("n1".to_string(), 4, 1)]);
    assert_eq!(r[1].0, ("s2".to_string(), day));
    assert_eq!(raw(&r[1].1), vec![("n2".to_string(), 6, 0)]);
}

#[test]
fn a_later_report_of_the_same_day_replaces_an_earlier_one() {
    let d = NANOS_PER_DAY;
    let stored = vec![
        report(5, "s1", vec![daily("n1", 10, 1)]),
        report(d + 5, "s1", vec![daily("n1", 5, 1)]),
        report(d + 10, "s1", vec![daily("n1", 7, 1)]),
    ];
    let day = DayUTC::from(d + 5);
    let r = daily_metrics_by_subnet(&stored, day, day);
    assert_eq!(r.len(), 1);
    assert_eq!(r[0].0, ("s1".to_string(), day));
    assert_eq!(raw(&r[0].1), vec![("n1".to_string(), 7, 1)]);
}

#[test]
fn no_reports_give_no_daily_metrics() {
    let day = DayUTC::from(NANOS_PER_DAY);
    assert!(daily_metrics_by_subnet(&Vec::new(), day, day).is_empty());
}
