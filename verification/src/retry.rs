use std::time::Duration;

use vstd::prelude::*;

verus! {

/// The length of a duration in nanoseconds, as `Duration::as_nanos`
/// returns it.
pub uninterp spec fn duration_nanos(d: Duration) -> u128;

/// The longest duration there is: `u64::MAX` seconds and 999,999,999
/// nanoseconds.
pub open spec fn max_duration_nanos() -> int {
    18446744073709551615int * 1_000_000_000int + 999_999_999int
}

/// Calls `Duration::as_nanos`: the total number of nanoseconds.
#[verifier::external_body]
fn duration_as_nanos(d: &Duration) -> (r: u128)
    ensures
        r == duration_nanos(*d),
{
    d.as_nanos()
}

/// Calls `Duration::from_secs`: a duration of `secs` whole seconds.
#[verifier::external_body]
fn duration_from_secs(secs: u64) -> (r: Duration)
    ensures
        duration_nanos(r) == secs * 1_000_000_000,
{
    Duration::from_secs(secs)
}

/// Calls `Duration::checked_mul`: the duration multiplied by `k`, or `None`
/// when the product is longer than the longest duration.
#[verifier::external_body]
fn duration_checked_mul(d: Duration, k: u32) -> (r: Option<Duration>)
    ensures
        (r is Some) == (duration_nanos(d) * k <= max_duration_nanos()),
        r is Some ==> duration_nanos(r->0) == duration_nanos(d) * k,
{
    d.checked_mul(k)
}

/// How to retry an operation until it succeeds.
#[derive(Copy, Clone, Debug)]
pub struct Retry {
    /// The number of times to retry the operation. It is always tried at
    /// least once.
    pub retries: u32,
    /// The first delay, 0 for none. Each retry multiplies it by `backoff`.
    pub delay: Duration,
    /// The backoff factor: 1 for a constant delay, 2 for an exponential
    /// one, 0 for no delay at all.
    pub backoff: u32,
    /// The longest delay, if any.
    pub max_delay: Option<Duration>,
}

impl Default for Retry {
    /// No retries, a delay of one second, exponential backoff, no maximum.
    fn default() -> (r: Retry)
        ensures
            r.retries == 0,
            duration_nanos(r.delay) == 1_000_000_000,
            r.backoff == 2,
            r.max_delay is None,
    {
        Retry { retries: 0, delay: duration_from_secs(1), backoff: 2, max_delay: None }
    }
}

impl Retry {
    /// The default: no retries, a delay of one second, exponential
    /// backoff, no maximum delay.
    pub fn new() -> (r: Retry)
        ensures
            r.retries == 0,
            duration_nanos(r.delay) == 1_000_000_000,
            r.backoff == 2,
            r.max_delay is None,
    {
        Retry::default()
    }

    /// Sets the number of retries.
    pub fn with_retries(self, retries: u32) -> (r: Retry)
        ensures
            r == (Retry { retries, ..self }),
    {
        let mut s = self;
        s.retries = retries;
        s
    }

    /// Sets the first delay.
    pub fn with_delay(self, delay: Duration) -> (r: Retry)
        ensures
            r == (Retry { delay, ..self }),
    {
        let mut s = self;
        s.delay = delay;
        s
    }

    /// Sets the backoff factor.
    pub fn with_backoff(self, backoff: u32) -> (r: Retry)
        ensures
            r == (Retry { backoff, ..self }),
    {
        let mut s = self;
        s.backoff = backoff;
        s
    }

    /// Sets the longest delay.
    pub fn with_max_delay(self, max_delay: Duration) -> (r: Retry)
        ensures
            r == (Retry { max_delay: Some(max_delay), ..self }),
    {
        let mut s = self;
        s.max_delay = Some(max_delay);
        s
    }

    /// The number of attempts: the first try and each retry.
    pub fn attempts(&self) -> (r: u32)
        requires
            self.retries < u32::MAX,
        ensures
            r == self.retries + 1,
    {
        self.retries + 1
    }

    /// After a failed attempt with `attempt` attempts left (counting the
    /// failed one): the number of attempts that remain, or `None` when none
    /// does and the failure is final.
    pub fn after_failure(&self, attempt: u32) -> (r: Option<u32>)
        requires
            attempt > 0,
        ensures
            attempt > 1 ==> r == Some((attempt - 1) as u32),
            attempt == 1 ==> r is None,
    {
        let remaining = attempt - 1;
        if remaining > 0 {
            Some(remaining)
        } else {
            None
        }
    }

    /// The delay that follows `delay`: multiplied by the backoff factor and
    /// capped by the longest delay, if there is one.
    pub fn next_delay(&self, delay: Duration) -> (r: Duration)
        requires
            duration_nanos(delay) * self.backoff <= max_duration_nanos(),
        ensures
            duration_nanos(r) == match self.max_delay {
                Some(m) => if duration_nanos(delay) * self.backoff <= duration_nanos(m) {
                    duration_nanos(delay) * self.backoff
                } else {
                    duration_nanos(m) as int
                },
                None => duration_nanos(delay) * self.backoff,
            },
    {
        let scaled = match duration_checked_mul(delay, self.backoff) {
            Some(d) => d,
            None => vstd::pervasive::unreached(),
        };
        match self.max_delay {
            Some(m) => {
                if duration_as_nanos(&scaled) <= duration_as_nanos(&m) {
                    scaled
                } else {
                    m
                }
            },
            None => scaled,
        }
    }
}

impl Retry {
    /// The wait before the first retry: none at all when the backoff factor
    /// is 0, else the initial delay, capped by the longest delay if there is
    /// one.
    pub fn first_delay(&self) -> (r: Duration)
        ensures
            duration_nanos(r) == if self.backoff == 0 {
                0
            } else {
                match self.max_delay {
                    Some(m) => if duration_nanos(self.delay) <= duration_nanos(m) {
                        duration_nanos(self.delay) as int
                    } else {
                        duration_nanos(m) as int
                    },
                    None => duration_nanos(self.delay) as int,
                }
            },
    {
        if self.backoff == 0 {
            return duration_from_secs(0);
        }
        match self.max_delay {
            Some(m) => {
                if duration_as_nanos(&self.delay) <= duration_as_nanos(&m) {
                    self.delay
                } else {
                    m
                }
            },
            None => self.delay,
        }
    }

    /// The delay that follows `delay`, as `next_delay` gives it, or `None`
    /// when multiplying by the backoff factor would overflow a duration.
    pub fn checked_next_delay(&self, delay: Duration) -> (r: Option<Duration>)
        ensures
            r is Some <==> duration_nanos(delay) * self.backoff <= max_duration_nanos(),
            r is Some ==> duration_nanos(r->0) == match self.max_delay {
                Some(m) => if duration_nanos(delay) * self.backoff <= duration_nanos(m) {
                    duration_nanos(delay) * self.backoff
                } else {
                    duration_nanos(m) as int
                },
                None => duration_nanos(delay) * self.backoff,
            },
    {
        match duration_checked_mul(delay, self.backoff) {
            Some(_) => Some(self.next_delay(delay)),
            None => None,
        }
    }
}

/// A progress callback that reports nothing and always keeps retrying.
pub fn progress_dummy<E>(retry: &Retry, err: &E, remaining: u32, delay: Duration) -> (r: bool)
    ensures
        r,
{
    true
}

} // verus!
