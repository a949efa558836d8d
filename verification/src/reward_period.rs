//! Days, reward periods and their alignment to UTC day boundaries.
use vstd::prelude::*;

verus! {

/// Unix timestamp in nanoseconds.
pub type TimestampNanos = u64;

/// Nanoseconds in one UTC day.
pub const NANOS_PER_DAY: u64 = 86_400_000_000_000;

/// Index of the UTC day that holds `ts`.
pub open spec fn day_index(ts: int) -> int {
    ts / (NANOS_PER_DAY as int)
}

/// Last nanosecond of the UTC day that holds `ts`.
pub open spec fn spec_day_end(ts: int) -> int {
    (day_index(ts) + 1) * (NANOS_PER_DAY as int) - 1
}

/// First nanosecond of the UTC day that holds `ts`.
pub open spec fn spec_day_start(ts: int) -> int {
    day_index(ts) * (NANOS_PER_DAY as int)
}

/// A timestamp whose day end can be represented in a `u64`.
pub open spec fn aligned_in_range(ts: int) -> bool {
    (day_index(ts) + 1) * (NANOS_PER_DAY as int) <= u64::MAX
}

/// A timestamp aligned to the last nanosecond of its UTC day.
#[derive(Debug, Copy, Clone, PartialEq, Eq, Hash, Default)]
pub struct DayEndNanos(pub TimestampNanos);

impl DayEndNanos {
    /// The end of the UTC day that holds `ts`.
    pub fn from(ts: TimestampNanos) -> (r: Self)
        requires
            aligned_in_range(ts as int),
        ensures
            r.0 as int == spec_day_end(ts as int),
    {
        DayEndNanos(((ts / NANOS_PER_DAY) + 1) * NANOS_PER_DAY - 1)
    }

    pub fn get(&self) -> (r: TimestampNanos)
        ensures
            r == self.0,
    {
        self.0
    }
}

/// A UTC day, represented by its last nanosecond.
#[derive(Debug, Copy, Clone, PartialEq, Eq, Hash, Default)]
pub struct DayUTC(pub DayEndNanos);

/// A day end is well formed when it is the last nanosecond of a day.
pub open spec fn is_day_end(ts: int) -> bool {
    (ts + 1) % (NANOS_PER_DAY as int) == 0
}

impl DayUTC {
    /// The UTC day that holds `ts`.
    pub fn from(ts: TimestampNanos) -> (r: Self)
        requires
            aligned_in_range(ts as int),
        ensures
            r.0.0 as int == spec_day_end(ts as int),
    {
        DayUTC(DayEndNanos::from(ts))
    }

    /// The UTC day that ends at `end`.
    pub fn from_day_end(end: DayEndNanos) -> (r: Self)
        ensures
            r.0 == end,
    {
        DayUTC(end)
    }

    pub fn unix_ts_at_day_end(&self) -> (r: TimestampNanos)
        ensures
            r == self.0.0,
    {
        self.0.get()
    }

    pub fn unix_ts_at_day_start(&self) -> (r: TimestampNanos)
        ensures
            r as int == spec_day_start(self.0.0 as int),
    {
        (self.0.get() / NANOS_PER_DAY) * NANOS_PER_DAY
    }
}

/// Number of days from the day of `from` to the day of `to`, both included.
pub open spec fn spec_days_between(from: DayUTC, to: DayUTC) -> int {
    day_index(to.0.0 as int) - day_index(from.0.0 as int) + 1
}

/// Number of days from `from` to `to`, both included.
pub fn days_between(from: DayUTC, to: DayUTC) -> (r: u64)
    requires
        from.0.0 <= to.0.0,
    ensures
        r as int == spec_days_between(from, to),
{
    to.0.0 / NANOS_PER_DAY - from.0.0 / NANOS_PER_DAY + 1
}

/// Reward period in which the node providers are rewarded, from the first day to the last day,
/// both included.
#[derive(Debug, Clone, PartialEq, Eq)]
pub struct RewardPeriod {
    pub from: DayUTC,
    pub to: DayUTC,
}

/// Why a reward period could not be formed.
#[derive(Debug, Clone, Copy, PartialEq, Eq)]
pub enum RewardPeriodError {
    StartTimestampAfterEndTimestamp,
    EndTimestampLaterThanToday,
}

/// The outcome of [`RewardPeriod::new`] when the current time is `now`.
pub open spec fn spec_reward_period(start: int, end: int, now: int) -> Result<RewardPeriod, RewardPeriodError> {
    if start > end {
        Err(RewardPeriodError::StartTimestampAfterEndTimestamp)
    } else if day_index(end) >= day_index(now) {
        Err(RewardPeriodError::EndTimestampLaterThanToday)
    } else {
        Ok(RewardPeriod {
            from: DayUTC(DayEndNanos(spec_day_end(start) as u64)),
            to: DayUTC(DayEndNanos(spec_day_end(end) as u64)),
        })
    }
}

impl RewardPeriodError {
    /// The message that explains the error.
    pub fn message(&self) -> (r: String)
        ensures
            r@ == (match self {
                RewardPeriodError::StartTimestampAfterEndTimestamp =>
                    "unaligned_start_ts must be earlier than unaligned_end_ts."@,
                RewardPeriodError::EndTimestampLaterThanToday =>
                    "unaligned_end_ts must be earlier than today"@,
            }),
    {
        match self {
            RewardPeriodError::StartTimestampAfterEndTimestamp => {
                String::from_str("unaligned_start_ts must be earlier than unaligned_end_ts.")
            },
            RewardPeriodError::EndTimestampLaterThanToday => {
                String::from_str("unaligned_end_ts must be earlier than today")
            },
        }
    }
}

/// A point in time of the system clock.
#[verifier::external_type_specification]
#[verifier::external_body]
pub struct ExSystemTime(std::time::SystemTime);

/// Why the time since a point could not be given: the point is later.
#[verifier::external_type_specification]
#[verifier::external_body]
pub struct ExSystemTimeError(std::time::SystemTimeError);

/// Calls `SystemTime::now`: the current time of the system clock. Nothing is promised of it.
#[verifier::external_body]
fn system_now() -> (r: std::time::SystemTime) {
    std::time::SystemTime::now()
}

/// Calls `SystemTime::duration_since` with the Unix epoch: the time since the epoch, or an error
/// when `t` is before it. Nothing is promised of which.
#[verifier::external_body]
fn since_epoch(t: &std::time::SystemTime) -> (r: Result<std::time::Duration, std::time::SystemTimeError>) {
    t.duration_since(std::time::UNIX_EPOCH)
}

/// Calls `Duration::as_nanos`: the whole duration in nanoseconds. The duration is opaque here, so
/// nothing is stated of the number.
#[verifier::external_body]
fn duration_nanos(d: &std::time::Duration) -> (r: u128) {
    d.as_nanos()
}

/// The current time, in nanoseconds since the Unix epoch (truncated to 64 bits), as read from
/// the system clock; 0 when the clock is before the epoch.
fn current_time_nanos() -> (r: TimestampNanos) {
    let t = system_now();
    match since_epoch(&t) {
        Ok(d) => {
            let n = duration_nanos(&d);
            #[verifier::truncate]
            (n as u64)
        },
        Err(_) => 0,
    }
}

impl RewardPeriod {
    /// Creates a reward period from a timestamp in its first day and a timestamp in its last day,
    /// given the current time `now`. The last day must be over before the day of `now` begins.
    pub fn new_at(
        unaligned_start_ts: TimestampNanos,
        unaligned_end_ts: TimestampNanos,
        now: TimestampNanos,
    ) -> (r: Result<Self, RewardPeriodError>)
        requires
            aligned_in_range(unaligned_start_ts as int),
            aligned_in_range(unaligned_end_ts as int),
        ensures
            r == spec_reward_period(unaligned_start_ts as int, unaligned_end_ts as int, now as int),
    {
        if unaligned_start_ts > unaligned_end_ts {
            return Err(RewardPeriodError::StartTimestampAfterEndTimestamp);
        }
        let start_ts = DayEndNanos::from(unaligned_start_ts);
        let end_ts = DayEndNanos::from(unaligned_end_ts);
        // Metrics are collected at the end of the day: the last day must be over.
        if unaligned_end_ts / NANOS_PER_DAY >= now / NANOS_PER_DAY {
            return Err(RewardPeriodError::EndTimestampLaterThanToday);
        }
        Ok(RewardPeriod { from: DayUTC(start_ts), to: DayUTC(end_ts) })
    }

    /// Creates a reward period from a timestamp in its first day and a timestamp in its last day.
    /// The last day must be over before the current day begins.
    pub fn new(unaligned_start_ts: TimestampNanos, unaligned_end_ts: TimestampNanos) -> (r: Result<
        Self,
        RewardPeriodError,
    >)
        requires
            aligned_in_range(unaligned_start_ts as int),
            aligned_in_range(unaligned_end_ts as int),
        ensures
            unaligned_start_ts > unaligned_end_ts ==> r == Err::<Self, RewardPeriodError>(
                RewardPeriodError::StartTimestampAfterEndTimestamp,
            ),
            exists|now: int| 0 <= now <= u64::MAX && r == spec_reward_period(unaligned_start_ts as int, unaligned_end_ts as int, now),
    {
        let now = current_time_nanos();
        Self::new_at(unaligned_start_ts, unaligned_end_ts, now)
    }

    /// Whether `day` lies in the reward period.
    pub fn contains(&self, day: DayUTC) -> (r: bool)
        ensures
            r == (self.from.0.0 <= day.0.0 && day.0.0 <= self.to.0.0),
    {
        day.0.0 >= self.from.0.0 && day.0.0 <= self.to.0.0
    }
}

/// The end of a day lies in that day and is its last nanosecond; aligning it again changes
/// nothing, and the day starts `NANOS_PER_DAY - 1` nanoseconds before it ends.
pub proof fn lemma_day_end_alignment(ts: int)
    requires
        ts >= 0,
    ensures
        spec_day_start(ts) <= ts <= spec_day_end(ts),
        spec_day_end(ts) < ts + NANOS_PER_DAY,
        is_day_end(spec_day_end(ts)),
        day_index(spec_day_end(ts)) == day_index(ts),
        spec_day_end(spec_day_end(ts)) == spec_day_end(ts),
        spec_day_start(spec_day_end(ts)) == spec_day_start(ts),
        spec_day_end(ts) - spec_day_start(ts) == NANOS_PER_DAY - 1,
{
    let n = NANOS_PER_DAY as int;
    let d = ts / n;
    vstd::arithmetic::div_mod::lemma_fundamental_div_mod(ts, n);
    assert(0 <= ts % n < n);
    let e = (d + 1) * n - 1;
    assert(e == d * n + (n - 1)) by (nonlinear_arith)
        requires e == (d + 1) * n - 1;
    vstd::arithmetic::div_mod::lemma_fundamental_div_mod_converse(e, n, d, n - 1);
    assert((e + 1) == (d + 1) * n);
    vstd::arithmetic::div_mod::lemma_mod_multiples_basic(d + 1, n);
    assert((d + 1) * n % n == 0) by (nonlinear_arith) requires n > 0;
}

/// A reward period that could be formed runs forward in time: its first day ends no later than
/// its last day, both are day ends, and the last day is over before the day of `now`.
pub proof fn lemma_reward_period_ordered(start: int, end: int, now: int)
    requires
        0 <= start,
        0 <= end,
        aligned_in_range(start),
        aligned_in_range(end),
        spec_reward_period(start, end, now) is Ok,
    ensures
        ({
            let p = spec_reward_period(start, end, now)->Ok_0;
            &&& p.from.0.0 <= p.to.0.0
            &&& is_day_end(p.from.0.0 as int)
            &&& is_day_end(p.to.0.0 as int)
            &&& day_index(p.to.0.0 as int) < day_index(now)
            &&& p.from.0.0 <= start + NANOS_PER_DAY
            &&& start <= p.from.0.0
            &&& end <= p.to.0.0
        }),
{
    lemma_day_end_alignment(start);
    lemma_day_end_alignment(end);
    let n = NANOS_PER_DAY as int;
    vstd::arithmetic::div_mod::lemma_div_is_ordered(start, end, n);
    assert((day_index(start) + 1) * n <= (day_index(end) + 1) * n) by (nonlinear_arith)
        requires day_index(start) <= day_index(end), n > 0;
}

} // verus!
