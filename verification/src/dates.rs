//! Reward periods and timer delays from UTC dates and times.
use vstd::prelude::*;
use chrono::Datelike;

verus! {

/// Nanoseconds in an hour.
pub const NANOS_PER_HOUR: u64 = 3_600_000_000_000;

/// Nanoseconds in a day.
pub const NANOS_PER_DAY: u64 = 86_400_000_000_000;

/// Seconds in a day.
pub const SECS_PER_DAY: i64 = 86_400;

/// Nanoseconds in a second.
pub const NANOS_PER_SEC: i64 = 1_000_000_000;

/// The earliest year of a date.
pub const MIN_YEAR: i32 = -262_143;

/// The latest year of a date.
pub const MAX_YEAR: i32 = 262_142;

/// Whether `y` is a leap year of the proleptic Gregorian calendar.
pub open spec fn is_leap_year(y: int) -> bool {
    (y % 4 == 0 && y % 100 != 0) || y % 400 == 0
}

/// The number of days of month `m` (1 to 12) of year `y`.
pub open spec fn month_days(y: int, m: int) -> int {
    if m == 2 {
        if is_leap_year(y) { 29 } else { 28 }
    } else if m == 4 || m == 6 || m == 9 || m == 11 {
        30
    } else {
        31
    }
}

/// The number of days of year `y` before the first of month `m` (1 to 12).
pub open spec fn days_before_month(y: int, m: int) -> int {
    let common: int = if m <= 1 { 0 } else if m == 2 { 31 } else if m == 3 { 59 } else if m == 4 { 90 }
        else if m == 5 { 120 } else if m == 6 { 151 } else if m == 7 { 181 } else if m == 8 { 212 }
        else if m == 9 { 243 } else if m == 10 { 273 } else if m == 11 { 304 } else { 334 };
    if m > 2 && is_leap_year(y) { common + 1 } else { common }
}

/// A count of leap years: the difference of its values at two years is the number of leap years
/// from the first up to, not including, the second.
pub open spec fn leap_count(y: int) -> int {
    (y - 1) / 4 - (y - 1) / 100 + (y - 1) / 400
}

/// The number of days from 1 January 1970 to the date (year `y`, month `m`, day `d`), negative
/// before it.
pub open spec fn days_from_epoch(y: int, m: int, d: int) -> int {
    365 * (y - 1970) + leap_count(y) - leap_count(1970) + days_before_month(y, m) + d - 1
}

/// Whether (year `y`, month `m`, day `d`) is a date of the calendar.
pub open spec fn is_date(y: int, m: int, d: int) -> bool {
    1 <= m <= 12 && 1 <= d <= month_days(y, m)
}

/// The UTC date (year, month, day) of the Unix time `secs`, or `None` when out of range.
pub uninterp spec fn utc_date_of_secs(secs: i64) -> Option<(i32, u32, u32)>;

/// The Unix time of the start of the UTC date (year, month, day), or `None` when the date does
/// not exist or is out of range.
pub uninterp spec fn utc_secs_of_date(year: i32, month: u32, day: u32) -> Option<i64>;

/// The Unix time `months` months before the Unix time `secs` (the last day of the month where
/// the day does not exist in it), or `None` when out of range.
pub uninterp spec fn utc_sub_months(secs: i64, months: u32) -> Option<i64>;

/// The date written in `text` as `dd-mm-yyyy`, or `None` when it is not such a date.
pub uninterp spec fn parsed_dd_mm_yyyy(text: Seq<char>) -> Option<(i32, u32, u32)>;

/// Calls `DateTime::<Utc>::from_timestamp(secs, 0)` and reads its year, month and day. The
/// result is named, and is the date of the proleptic Gregorian calendar whose day number from
/// 1 January 1970 is `secs` divided by the seconds of a day, rounded down; chrono documents months in `1..=12`, days in `1..=31`, dates from year
/// `MIN_YEAR` to `MAX_YEAR`, and `None` only out of that range (so never within 2^40 seconds of
/// the epoch).
#[verifier::external_body]
fn date_of_secs(secs: i64) -> (r: Option<(i32, u32, u32)>)
    ensures
        r == utc_date_of_secs(secs),
        r matches Some(d) ==> 1 <= d.1 <= 12 && 1 <= d.2 <= 31 && MIN_YEAR <= d.0 <= MAX_YEAR,
        r matches Some(d) ==> is_date(d.0 as int, d.1 as int, d.2 as int) && days_from_epoch(
            d.0 as int,
            d.1 as int,
            d.2 as int,
        ) == (secs as int) / (SECS_PER_DAY as int),
        -0x100_0000_0000 <= secs <= 0x100_0000_0000 ==> r is Some,
{
    match chrono::DateTime::<chrono::Utc>::from_timestamp(secs, 0) {
        Some(t) => Some((t.year(), t.month(), t.day())),
        None => None,
    }
}

/// Calls `NaiveDate::from_ymd_opt(year, month, day)` and takes the Unix time of its midnight in
/// UTC. The result is named; it is `None` exactly for a date that does not exist or whose year is
/// out of range, and otherwise the date's day number from 1 January 1970 times the seconds of a
/// day.
#[verifier::external_body]
fn secs_of_date(year: i32, month: u32, day: u32) -> (r: Option<i64>)
    ensures
        r == utc_secs_of_date(year, month, day),
        MIN_YEAR <= year <= MAX_YEAR && 1 <= month <= 12 && 1 <= day <= 28 ==> r is Some,
        r is Some <==> (MIN_YEAR <= year <= MAX_YEAR && is_date(year as int, month as int, day as int)),
        r matches Some(s) ==> s == days_from_epoch(year as int, month as int, day as int) * (SECS_PER_DAY as int),
{
    match chrono::NaiveDate::from_ymd_opt(year, month, day) {
        Some(d) => Some(d.and_time(chrono::NaiveTime::MIN).and_utc().timestamp()),
        None => None,
    }
}

/// Calls `DateTime::<Utc>::from_timestamp(secs, 0)` and then `checked_sub_months`, and takes
/// the Unix time of the result. The result is named: when it exists is not stated.
#[verifier::external_body]
fn sub_months_secs(secs: i64, months: u32) -> (r: Option<i64>)
    ensures
        r == utc_sub_months(secs, months),
{
    match chrono::DateTime::<chrono::Utc>::from_timestamp(secs, 0) {
        Some(t) => match t.checked_sub_months(chrono::Months::new(months)) {
            Some(x) => Some(x.timestamp()),
            None => None,
        },
        None => None,
    }
}

/// Calls `NaiveDate::parse_from_str(text, "%d-%m-%Y")` and reads the year, month and day of the
/// date. The result is named, and so is whether the text parses.
#[verifier::external_body]
fn parse_dd_mm_yyyy(text: &str) -> (r: Result<(i32, u32, u32), chrono::ParseError>)
    ensures
        match r {
            Ok(d) => parsed_dd_mm_yyyy(text@) == Some(d),
            Err(_) => parsed_dd_mm_yyyy(text@) is None,
        },
{
    match chrono::NaiveDate::parse_from_str(text, "%d-%m-%Y") {
        Ok(d) => Ok((d.year(), d.month(), d.day())),
        Err(e) => Err(e),
    }
}

#[verifier::external_type_specification]
#[verifier::external_body]
pub struct ExParseError(chrono::ParseError);

/// Magnitude of a Unix time in seconds that every date and time lies within.
pub const SECS_BOUND: i64 = 0x800_0000_0000;

/// A range of UTC days: the midnight that starts the first and the one after the last (Unix
/// seconds).
#[derive(Debug, Clone, Copy, PartialEq, Eq)]
pub struct DateTimeRange {
    pub start_secs: i64,
    pub end_secs: i64,
}

/// A reward period: its first and last instants, as Unix timestamps in nanoseconds.
#[derive(Debug, Clone, Copy, PartialEq, Eq)]
pub struct RewardPeriodArgs {
    pub start_ts: u64,
    pub end_ts: u64,
}

/// A text that is not a date written as `dd-mm-yyyy`.
#[derive(Debug, Clone, Copy, PartialEq, Eq)]
pub enum DateParseError {
    InvalidDate,
}

/// The dates of the 14th that bound the last reward period, from today's date, the date of the
/// last day of the month before, and that of the last day of the month before that: from the
/// 14th of last month to the 14th of this month once the 14th is reached, else from the 14th of
/// the month before last to the 14th of last month.
pub open spec fn spec_reward_period_dates(
    today: (i32, u32, u32),
    end_of_last_month: (i32, u32, u32),
    end_of_month_before: (i32, u32, u32),
) -> ((i32, u32, u32), (i32, u32, u32)) {
    if today.2 >= 14 {
        ((end_of_last_month.0, end_of_last_month.1, 14), (today.0, today.1, 14))
    } else {
        ((end_of_month_before.0, end_of_month_before.1, 14), (end_of_last_month.0, end_of_last_month.1, 14))
    }
}

/// The first and last dates of the last reward period (see [`spec_reward_period_dates`]).
pub fn reward_period_dates(
    today: (i32, u32, u32),
    end_of_last_month: (i32, u32, u32),
    end_of_month_before: (i32, u32, u32),
) -> (r: ((i32, u32, u32), (i32, u32, u32)))
    ensures
        r == spec_reward_period_dates(today, end_of_last_month, end_of_month_before),
{
    if today.2 >= 14 {
        ((end_of_last_month.0, end_of_last_month.1, 14), (today.0, today.1, 14))
    } else {
        ((end_of_month_before.0, end_of_month_before.1, 14), (end_of_last_month.0, end_of_last_month.1, 14))
    }
}

/// The last reward period at time `ts`: the dates of [`spec_reward_period_dates`] for the UTC
/// date of `ts`, the day before the first of its month, and the day before the first of that
/// one's month.
pub open spec fn spec_last_reward_period(ts: u64) -> DateTimeRange {
    let day = (ts / NANOS_PER_DAY) as int;
    let today = utc_date_of_secs((day * 86400) as i64).unwrap();
    let last = utc_date_of_secs(((day - today.2) * 86400) as i64).unwrap();
    let before = utc_date_of_secs(((day - today.2 - last.2) * 86400) as i64).unwrap();
    let (start, end) = spec_reward_period_dates(today, last, before);
    DateTimeRange {
        start_secs: utc_secs_of_date(start.0, start.1, start.2).unwrap(),
        end_secs: utc_secs_of_date(end.0, end.1, end.2).unwrap(),
    }
}

/// Whether `secs` seconds, in nanoseconds, fit an `i64`.
pub open spec fn nanos_fit(secs: int) -> bool {
    i64::MIN <= secs * 1_000_000_000 <= i64::MAX
}

/// The Unix seconds of the midnight that starts the UTC day of nanosecond timestamp `ts`.
pub open spec fn midnight_secs(ts: u64) -> int {
    (ts / NANOS_PER_DAY) as int * 86400
}

impl DateTimeRange {
    /// Both bounds are times of a date.
    pub open spec fn wf(self) -> bool {
        -SECS_BOUND <= self.start_secs <= SECS_BOUND && -SECS_BOUND <= self.end_secs <= SECS_BOUND
    }

    /// The days from the day of `from_ts` to the day of `to_ts`: from the midnight that starts
    /// the first to the midnight after the last.
    pub fn new(from_ts: u64, to_ts: u64) -> (r: Self)
        requires
            from_ts <= i64::MAX,
            to_ts <= i64::MAX,
        ensures
            r.start_secs == midnight_secs(from_ts),
            r.end_secs == midnight_secs(to_ts) + 86400,
            r.wf(),
    {
        let start = (from_ts / NANOS_PER_DAY) as i64;
        let end = (to_ts / NANOS_PER_DAY) as i64;
        assert(from_ts / NANOS_PER_DAY <= 106752) by (nonlinear_arith)
            requires
                from_ts <= i64::MAX,
        ;
        assert(to_ts / NANOS_PER_DAY <= 106752) by (nonlinear_arith)
            requires
                to_ts <= i64::MAX,
        ;
        DateTimeRange { start_secs: start * SECS_PER_DAY, end_secs: end * SECS_PER_DAY + SECS_PER_DAY }
    }

    /// The last reward period at time `current_ts` (see [`spec_last_reward_period`]): from the
    /// 14th of a month to the 14th of the next.
    pub fn last_reward_period(current_ts: u64) -> (r: Self)
        requires
            current_ts <= i64::MAX,
        ensures
            r == spec_last_reward_period(current_ts),
    {
        let day = (current_ts / NANOS_PER_DAY) as i64;
        assert(current_ts / NANOS_PER_DAY <= 106752) by (nonlinear_arith)
            requires
                current_ts <= i64::MAX,
        ;
        let today = date_of_secs(day * SECS_PER_DAY).unwrap();
        let back = day - today.2 as i64;
        let last = date_of_secs(back * SECS_PER_DAY).unwrap();
        let before = date_of_secs((back - last.2 as i64) * SECS_PER_DAY).unwrap();
        let (start, end) = reward_period_dates(today, last, before);
        DateTimeRange { start_secs: secs_of_date(start.0, start.1, start.2).unwrap(), end_secs: secs_of_date(end.0, end.1, end.2).unwrap() }
    }

    /// The number of days in the range (rounded towards zero, and as an unsigned number).
    pub open spec fn spec_days(self) -> u64 {
        (if self.end_secs >= self.start_secs {
            (self.end_secs - self.start_secs) / 86400
        } else {
            -((self.start_secs - self.end_secs) / 86400)
        }) as u64
    }

    /// The number of days in the range (see [`DateTimeRange::spec_days`]).
    pub fn days_between(&self) -> (r: u64)
        requires
            self.wf(),
        ensures
            r == self.spec_days(),
    {
        if self.end_secs >= self.start_secs {
            ((self.end_secs - self.start_secs) / SECS_PER_DAY) as u64
        } else {
            (-((self.start_secs - self.end_secs) / SECS_PER_DAY)) as u64
        }
    }

    /// The start of the range as a nanosecond timestamp.
    pub fn start_timestamp_nanos(&self) -> (r: u64)
        requires
            nanos_fit(self.start_secs as int),
        ensures
            r == (self.start_secs * 1_000_000_000) as u64,
    {
        (self.start_secs * NANOS_PER_SEC) as u64
    }

    /// The end of the range as a nanosecond timestamp.
    pub fn end_timestamp_nanos(&self) -> (r: u64)
        requires
            nanos_fit(self.end_secs as int),
        ensures
            r == (self.end_secs * 1_000_000_000) as u64,
    {
        (self.end_secs * NANOS_PER_SEC) as u64
    }
}

/// The nanoseconds from `current_ts` to ten past midnight of the next UTC day.
pub fn duration_until_midnight(current_ts: u64) -> (r: u64)
    requires
        current_ts <= i64::MAX,
    ensures
        r == (current_ts / NANOS_PER_DAY) * NANOS_PER_DAY + NANOS_PER_DAY + 600_000_000_000 - current_ts,
{
    let midnight = (current_ts / NANOS_PER_DAY) * NANOS_PER_DAY;
    assert(midnight <= current_ts) by (nonlinear_arith)
        requires
            midnight == (current_ts / NANOS_PER_DAY) * NANOS_PER_DAY,
    ;
    let target = midnight + NANOS_PER_DAY + 600_000_000_000;
    assert(current_ts < midnight + NANOS_PER_DAY) by (nonlinear_arith)
        requires
            midnight == (current_ts / NANOS_PER_DAY) * NANOS_PER_DAY,
    ;
    target - current_ts
}

/// The start of the hour of `now` (nanoseconds since the epoch).
pub fn start_of_this_hour(now: u64) -> (r: u64)
    requires
        now <= i64::MAX,
    ensures
        r == (now / NANOS_PER_HOUR) * NANOS_PER_HOUR,
{
    assert((now / NANOS_PER_HOUR) * NANOS_PER_HOUR <= now) by (nonlinear_arith);
    (now / NANOS_PER_HOUR) * NANOS_PER_HOUR
}

/// The midnight that starts the UTC day of `now` (nanoseconds since the epoch).
pub fn today_at_midnight(now: u64) -> (r: u64)
    requires
        now <= i64::MAX,
    ensures
        r == (now / NANOS_PER_DAY) * NANOS_PER_DAY,
{
    assert((now / NANOS_PER_DAY) * NANOS_PER_DAY <= now) by (nonlinear_arith);
    (now / NANOS_PER_DAY) * NANOS_PER_DAY
}

/// The nanoseconds from `now` to the next 1AM UTC: today's when it is still to come, else
/// tomorrow's.
pub fn time_left_for_next_1am(now: u64) -> (r: u64)
    requires
        now <= i64::MAX,
    ensures
        ({
            let midnight = (now / NANOS_PER_DAY) * NANOS_PER_DAY;
            r == if now < midnight + NANOS_PER_HOUR {
                midnight + NANOS_PER_HOUR - now
            } else {
                midnight + NANOS_PER_DAY + NANOS_PER_HOUR - now
            }
        }),
{
    let midnight = today_at_midnight(now);
    assert(now < midnight + NANOS_PER_DAY) by (nonlinear_arith)
        requires
            midnight == (now / NANOS_PER_DAY) * NANOS_PER_DAY,
    ;
    if now < midnight + NANOS_PER_HOUR {
        midnight + NANOS_PER_HOUR - now
    } else {
        midnight + NANOS_PER_DAY + NANOS_PER_HOUR - now
    }
}

/// The reward period of the `months` months that end at the midnight starting the UTC day of
/// `now`: from the same time `months` months earlier (the last day of the month where the day
/// does not exist in it) to that midnight.
pub open spec fn spec_n_months_period(now: u64, months: u32) -> RewardPeriodArgs {
    let midnight = (now / NANOS_PER_DAY) * NANOS_PER_DAY;
    let ago = utc_sub_months((midnight / 1_000_000_000) as i64, months).unwrap();
    RewardPeriodArgs { start_ts: (ago * 1_000_000_000) as u64, end_ts: midnight as u64 }
}

/// The reward period of the last `months` months (see [`spec_n_months_period`]).
pub fn get_n_months_rewards_period(now: u64, months: u32) -> (r: RewardPeriodArgs)
    requires
        now <= i64::MAX,
        utc_sub_months((((now / NANOS_PER_DAY) * NANOS_PER_DAY) / 1_000_000_000) as i64, months) matches Some(ago) && nanos_fit(
            ago as int,
        ),
    ensures
        r == spec_n_months_period(now, months),
{
    let midnight = today_at_midnight(now);
    let secs = (midnight / 1_000_000_000) as i64;
    let ago = sub_months_secs(secs, months).unwrap();
    RewardPeriodArgs { start_ts: (ago * NANOS_PER_SEC) as u64, end_ts: midnight }
}

/// The reward period of the last `months` months (see [`get_n_months_rewards_period`]), or
/// `None` when its start is out of the range of dates or of nanosecond timestamps.
pub fn n_months_rewards_period(now: u64, months: u32) -> (r: Option<RewardPeriodArgs>)
    requires
        now <= i64::MAX,
    ensures
        match utc_sub_months((((now / NANOS_PER_DAY) * NANOS_PER_DAY) / 1_000_000_000) as i64, months) {
            Some(ago) => if nanos_fit(ago as int) {
                r == Some(spec_n_months_period(now, months))
            } else {
                r is None
            },
            None => r is None,
        },
{
    let midnight = today_at_midnight(now);
    let secs = (midnight / 1_000_000_000) as i64;
    match sub_months_secs(secs, months) {
        Some(ago) => {
            if ago >= i64::MIN / NANOS_PER_SEC && ago <= i64::MAX / NANOS_PER_SEC {
                Some(get_n_months_rewards_period(now, months))
            } else {
                None
            }
        },
        None => None,
    }
}

/// The Unix seconds of the start of date `d`, or of the epoch when the date has none.
pub open spec fn start_secs_of(d: (i32, u32, u32)) -> int {
    match utc_secs_of_date(d.0, d.1, d.2) {
        Some(s) => s as int,
        None => 0,
    }
}

/// The Unix seconds of the last second of date `d`, or of the epoch when the date has none.
pub open spec fn end_secs_of(d: (i32, u32, u32)) -> int {
    match utc_secs_of_date(d.0, d.1, d.2) {
        Some(s) => s + 86399,
        None => 0,
    }
}

/// Both dates parse and their bounds fit nanosecond timestamps.
pub open spec fn dates_in_range(start: Seq<char>, end: Seq<char>) -> bool {
    match (parsed_dd_mm_yyyy(start), parsed_dd_mm_yyyy(end)) {
        (Some(a), Some(b)) => nanos_fit(start_secs_of(a)) && nanos_fit(end_secs_of(b)),
        _ => true,
    }
}

/// The reward period from the start of the date written in `start` to the last second of the
/// date written in `end` (both `dd-mm-yyyy`), or the error for the first text that is no date.
pub open spec fn spec_from_dd_mm_yyyy(start: Seq<char>, end: Seq<char>) -> Result<RewardPeriodArgs, DateParseError> {
    match parsed_dd_mm_yyyy(start) {
        None => Err(DateParseError::InvalidDate),
        Some(a) => match parsed_dd_mm_yyyy(end) {
            None => Err(DateParseError::InvalidDate),
            Some(b) => Ok(
                RewardPeriodArgs {
                    start_ts: (start_secs_of(a) * 1_000_000_000) as u64,
                    end_ts: (end_secs_of(b) * 1_000_000_000) as u64,
                },
            ),
        },
    }
}

fn date_start_secs(d: (i32, u32, u32)) -> (r: i64)
    ensures
        r == start_secs_of(d),
{
    match secs_of_date(d.0, d.1, d.2) {
        Some(s) => s,
        None => 0,
    }
}

fn date_end_secs(d: (i32, u32, u32)) -> (r: Option<i64>)
    ensures
        match r {
            Some(x) => x == end_secs_of(d),
            None => end_secs_of(d) > i64::MAX,
        },
{
    match secs_of_date(d.0, d.1, d.2) {
        Some(s) => s.checked_add(86399),
        None => Some(0),
    }
}

impl RewardPeriodArgs {
    /// The reward period from the start of the date written in `start` to the last second of the
    /// date written in `end` (see [`spec_from_dd_mm_yyyy`]). Dates whose bounds do not fit
    /// nanosecond timestamps are left out by `requires`.
    pub fn from_dd_mm_yyyy(start: &str, end: &str) -> (r: Result<RewardPeriodArgs, DateParseError>)
        requires
            dates_in_range(start@, end@),
        ensures
            r == spec_from_dd_mm_yyyy(start@, end@),
    {
        let a = match parse_dd_mm_yyyy(start) {
            Ok(d) => d,
            Err(_) => {
                return Err(DateParseError::InvalidDate);
            },
        };
        let b = match parse_dd_mm_yyyy(end) {
            Ok(d) => d,
            Err(_) => {
                return Err(DateParseError::InvalidDate);
            },
        };
        let s = date_start_secs(a);
        let e = date_end_secs(b).unwrap();
        Ok(RewardPeriodArgs { start_ts: (s * NANOS_PER_SEC) as u64, end_ts: (e * NANOS_PER_SEC) as u64 })
    }

    /// The reward period of [`RewardPeriodArgs::from_dd_mm_yyyy`], or `None` when both texts
    /// are dates but a bound does not fit a nanosecond timestamp.
    pub fn from_dd_mm_yyyy_checked(start: &str, end: &str) -> (r: Option<Result<RewardPeriodArgs, DateParseError>>)
        ensures
            if dates_in_range(start@, end@) {
                r == Some(spec_from_dd_mm_yyyy(start@, end@))
            } else {
                r is None
            },
    {
        let a = match parse_dd_mm_yyyy(start) {
            Ok(d) => d,
            Err(_) => {
                return Some(Err(DateParseError::InvalidDate));
            },
        };
        let b = match parse_dd_mm_yyyy(end) {
            Ok(d) => d,
            Err(_) => {
                return Some(Err(DateParseError::InvalidDate));
            },
        };
        let s = date_start_secs(a);
        let fits_start = s >= i64::MIN / NANOS_PER_SEC && s <= i64::MAX / NANOS_PER_SEC;
        match date_end_secs(b) {
            Some(e) => {
                if fits_start && e >= i64::MIN / NANOS_PER_SEC && e <= i64::MAX / NANOS_PER_SEC {
                    Some(RewardPeriodArgs::from_dd_mm_yyyy(start, end))
                } else {
                    None
                }
            },
            None => None,
        }
    }
}

} // verus!
