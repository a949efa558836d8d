use chrono::{TimeZone, Utc};
use dre::reward_period::{days_between, DayEndNanos, DayUTC, RewardPeriod, RewardPeriodError, TimestampNanos, NANOS_PER_DAY};

fn ymdh_to_ts(year: i32, month: u32, day: u32, hour: u32) -> TimestampNanos {
    Utc.with_ymd_and_hms(year, month, day, hour, 0, 0).unwrap().timestamp_nanos_opt().unwrap() as TimestampNanos
}

#[test]
fn test_valid_rewarding_period() {
    let unaligned_start_ts = ymdh_to_ts(2020, 1, 12, 12);
    let unaligned_end_ts = ymdh_to_ts(2020, 1, 15, 15);

    let rp = RewardPeriod::new(unaligned_start_ts, unaligned_end_ts).unwrap();
    let expected_start_ts = ymdh_to_ts(2020, 1, 12, 0);
    let expected_end_ts = ymdh_to_ts(2020, 1, 16, 0) - 1;
    let days = days_between(rp.from, rp.to);

    assert_eq!(rp.from.unix_ts_at_day_start(), expected_start_ts);
    assert_eq!(rp.to.unix_ts_at_day_end(), expected_end_ts);
    assert_eq!(days, 4);

    let unaligned_end_ts = ymdh_to_ts(2020, 1, 12, 13);

    let rp = RewardPeriod::new(unaligned_start_ts, unaligned_end_ts).unwrap();
    let days = days_between(rp.from, rp.to);

    assert_eq!(days, 1);
}

#[test]
fn test_error_too_recent_end_ts() {
    let to_ts = std::time::SystemTime::now().duration_since(std::time::UNIX_EPOCH).unwrap().as_nanos() as u64;
    let from_ts = 0;

    let rp = RewardPeriod::new(from_ts, to_ts);
    assert_eq!(rp.unwrap_err(), RewardPeriodError::EndTimestampLaterThanToday);
}

#[test]
fn test_error_unaligned_start_ts_greater_unaligned_end_ts() {
    let to_ts = 0;
    let from_ts = 1;

    let rp = RewardPeriod::new(from_ts, to_ts);

    assert_eq!(rp.unwrap_err(), RewardPeriodError::StartTimestampAfterEndTimestamp);
}

#[test]
fn day_end_is_last_nanosecond_of_the_day() {
    assert_eq!(DayEndNanos::from(0).get(), NANOS_PER_DAY - 1);
    assert_eq!(DayEndNanos::from(NANOS_PER_DAY - 1).get(), NANOS_PER_DAY - 1);
    assert_eq!(DayEndNanos::from(NANOS_PER_DAY).get(), 2 * NANOS_PER_DAY - 1);
    let d = DayUTC::from(3 * NANOS_PER_DAY + 5);
    assert_eq!(d.unix_ts_at_day_start(), 3 * NANOS_PER_DAY);
    assert_eq!(d.unix_ts_at_day_end(), 4 * NANOS_PER_DAY - 1);
    // aligning twice changes nothing
    assert_eq!(DayEndNanos::from(d.unix_ts_at_day_end()).get(), d.unix_ts_at_day_end());
}

#[test]
fn reward_period_at_given_time() {
    let now = 10 * NANOS_PER_DAY + 7;
    let rp = RewardPeriod::new_at(NANOS_PER_DAY + 3, 9 * NANOS_PER_DAY, now).unwrap();
    assert_eq!(rp.from.unix_ts_at_day_end(), 2 * NANOS_PER_DAY - 1);
    assert_eq!(rp.to.unix_ts_at_day_end(), 10 * NANOS_PER_DAY - 1);
    assert!(rp.contains(DayUTC::from(5 * NANOS_PER_DAY)));
    assert!(!rp.contains(DayUTC::from(10 * NANOS_PER_DAY)));
    assert!(!rp.contains(DayUTC::from(0)));
    assert_eq!(
        RewardPeriod::new_at(0, 10 * NANOS_PER_DAY, now).unwrap_err(),
        RewardPeriodError::EndTimestampLaterThanToday
    );
    assert_eq!(
        RewardPeriodError::StartTimestampAfterEndTimestamp.message(),
        "unaligned_start_ts must be earlier than unaligned_end_ts."
    );
    assert_eq!(RewardPeriodError::EndTimestampLaterThanToday.message(), "unaligned_end_ts must be earlier than today");
}
