use chrono::{NaiveDate, TimeZone, Utc};
use dre::dates::{
    duration_until_midnight, get_n_months_rewards_period, n_months_rewards_period, reward_period_dates, start_of_this_hour,
    time_left_for_next_1am, today_at_midnight, DateParseError, DateTimeRange, RewardPeriodArgs,
};

const HOUR: u64 = 3_600_000_000_000;
const DAY: u64 = 24 * HOUR;

fn secs(y: i32, m: u32, d: u32) -> i64 {
    NaiveDate::from_ymd_opt(y, m, d).unwrap().and_hms_opt(0, 0, 0).unwrap().and_utc().timestamp()
}

fn nanos(y: i32, m: u32, d: u32, h: u32, min: u32, s: u32) -> u64 {
    Utc.with_ymd_and_hms(y, m, d, h, min, s).single().unwrap().timestamp_nanos_opt().unwrap() as u64
}

#[test]
fn last_reward_period_runs_from_the_14th_to_the_14th() {
    let r = DateTimeRange::last_reward_period(nanos(2025, 3, 20, 12, 0, 0));
    assert_eq!(r, DateTimeRange { start_secs: secs(2025, 2, 14), end_secs: secs(2025, 3, 14) });
    assert_eq!(r.days_between(), 28);
    let r = DateTimeRange::last_reward_period(nanos(2025, 3, 14, 0, 0, 0));
    assert_eq!(r, DateTimeRange { start_secs: secs(2025, 2, 14), end_secs: secs(2025, 3, 14) });
}

#[test]
fn before_the_14th_the_last_period_ended_last_month() {
    let r = DateTimeRange::last_reward_period(nanos(2025, 3, 5, 8, 0, 0));
    assert_eq!(r, DateTimeRange { start_secs: secs(2025, 1, 14), end_secs: secs(2025, 2, 14) });
    let r = DateTimeRange::last_reward_period(nanos(2025, 1, 13, 23, 59, 59));
    assert_eq!(r, DateTimeRange { start_secs: secs(2024, 11, 14), end_secs: secs(2024, 12, 14) });
    assert_eq!(r.days_between(), 30);
    assert_eq!(r.start_timestamp_nanos(), nanos(2024, 11, 14, 0, 0, 0));
    assert_eq!(r.end_timestamp_nanos(), nanos(2024, 12, 14, 0, 0, 0));
}

#[test]
fn period_dates_pick_the_months_by_the_day() {
    assert_eq!(reward_period_dates((2025, 3, 14), (2025, 2, 28), (2025, 1, 31)), ((2025, 2, 14), (2025, 3, 14)));
    assert_eq!(reward_period_dates((2025, 3, 13), (2025, 2, 28), (2025, 1, 31)), ((2025, 1, 14), (2025, 2, 14)));
}

#[test]
fn a_range_covers_whole_days() {
    let r = DateTimeRange::new(nanos(2025, 1, 1, 10, 0, 0), nanos(2025, 1, 3, 5, 0, 0));
    assert_eq!(r, DateTimeRange { start_secs: secs(2025, 1, 1), end_secs: secs(2025, 1, 4) });
    assert_eq!(r.days_between(), 3);
    assert_eq!(r.start_timestamp_nanos(), nanos(2025, 1, 1, 0, 0, 0));
    assert_eq!(r.end_timestamp_nanos(), nanos(2025, 1, 4, 0, 0, 0));
    let reversed = DateTimeRange { start_secs: secs(2025, 1, 4), end_secs: secs(2025, 1, 1) };
    assert_eq!(reversed.days_between(), (-3i64) as u64);
}

#[test]
fn timers_wait_for_the_next_day() {
    assert_eq!(duration_until_midnight(nanos(2025, 5, 6, 12, 0, 0)), 12 * HOUR + 10 * 60 * 1_000_000_000);
    assert_eq!(start_of_this_hour(nanos(2025, 5, 6, 12, 34, 56)), nanos(2025, 5, 6, 12, 0, 0));
    assert_eq!(today_at_midnight(nanos(2025, 5, 6, 12, 34, 56)), nanos(2025, 5, 6, 0, 0, 0));
    assert_eq!(time_left_for_next_1am(nanos(2025, 5, 6, 0, 30, 0)), HOUR / 2);
    assert_eq!(time_left_for_next_1am(nanos(2025, 5, 6, 2, 0, 0)), 23 * HOUR);
    assert_eq!(time_left_for_next_1am(nanos(2025, 5, 6, 1, 0, 0)), DAY);
}

#[test]
fn months_back_end_on_the_last_day_of_a_shorter_month() {
    let r = get_n_months_rewards_period(nanos(2025, 4, 30, 3, 1, 0), 2);
    assert_eq!(r, RewardPeriodArgs { start_ts: nanos(2025, 2, 28, 0, 0, 0), end_ts: nanos(2025, 4, 30, 0, 0, 0) });
    assert_eq!(n_months_rewards_period(nanos(2025, 4, 30, 3, 1, 0), 2), Some(r));
    assert_eq!(n_months_rewards_period(nanos(2025, 4, 30, 3, 1, 0), 12 * 400), None);
}

#[test]
fn reward_period_from_written_dates() {
    let r = RewardPeriodArgs::from_dd_mm_yyyy("01-02-2025", "28-02-2025").unwrap();
    assert_eq!(r, RewardPeriodArgs { start_ts: nanos(2025, 2, 1, 0, 0, 0), end_ts: nanos(2025, 2, 28, 23, 59, 59) });
    assert_eq!(RewardPeriodArgs::from_dd_mm_yyyy("2025-02-01", "28-02-2025"), Err(DateParseError::InvalidDate));
    assert_eq!(RewardPeriodArgs::from_dd_mm_yyyy("01-02-2025", "30-02-2025"), Err(DateParseError::InvalidDate));
    assert_eq!(RewardPeriodArgs::from_dd_mm_yyyy_checked("01-01-2300", "02-01-2300"), None);
    assert_eq!(RewardPeriodArgs::from_dd_mm_yyyy_checked("01-02-2025", "28-02-2025"), Some(Ok(r)));
}
