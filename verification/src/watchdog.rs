//! The dead-man's-switch safety timer: a single shared deadline in
//! milliseconds since the Unix epoch. Feeding the watchdog pushes the
//! deadline one timeout window into the future; a poll past the deadline
//! trips it, which disarms the deadline again so that the halt-all side
//! effect fires exactly once per silence period.
//!
//! The watchdog itself is a pure state machine over times handed in by the
//! caller; the clock read and the poll cadence live with the caller.

use vstd::prelude::*;

verus! {

/// How often the caller should poll the deadline, in milliseconds.
pub const WATCHDOG_POLL_INTERVAL_MILLIS: u64 = 1000;

/// Halt all devices after this much time with no valid command, in
/// milliseconds.
pub const WATCHDOG_TIMEOUT_MILLIS: i64 = 10000;

/// Relies on `std::time::SystemTime::elapsed` on the Unix epoch:
/// milliseconds since the epoch, or `None` when the system clock stands
/// before the epoch or out of range.
#[verifier::external_body]
pub fn now_unix_millis() -> (r: Option<i64>)
    ensures
        match r {
            Some(t) => t >= 0,
            None => true,
        },
{
    match std::time::UNIX_EPOCH.elapsed() {
        Ok(d) => i64::try_from(d.as_millis()).ok(),
        Err(_) => None,
    }
}

/// The current time plus an offset, or `None` when the clock is unreadable
/// or the sum does not fit.
pub fn unix_time_plus(plus_millis: i64) -> (r: Option<i64>)
    requires
        plus_millis >= 0,
    ensures
        match r {
            Some(t) => t >= plus_millis,
            None => true,
        },
{
    match now_unix_millis() {
        Some(now) => {
            if now <= i64::MAX - plus_millis {
                Some(now + plus_millis)
            } else {
                None
            }
        },
        None => None,
    }
}

/// The current time, in milliseconds since the Unix epoch.
pub fn unix_time() -> (r: Option<i64>)
    ensures
        match r {
            Some(t) => t >= 0,
            None => true,
        },
{
    unix_time_plus(0)
}

/// The deadline one timeout window from now.
pub fn calculate_timeout() -> (r: Option<i64>)
    ensures
        match r {
            Some(t) => t >= WATCHDOG_TIMEOUT_MILLIS,
            None => true,
        },
{
    unix_time_plus(WATCHDOG_TIMEOUT_MILLIS)
}

/// The deadline after feeding at `now`.
pub open spec fn spec_fed_deadline(now: int) -> int {
    now + WATCHDOG_TIMEOUT_MILLIS
}

/// The deadline and trip decision of one poll at `now`: past the deadline
/// the watchdog trips and disarms itself, otherwise nothing changes.
pub open spec fn spec_poll_step(deadline: int, now: int) -> (int, bool) {
    if now > deadline {
        (i64::MAX as int, true)
    } else {
        (deadline, false)
    }
}

/// The watchdog state: the single shared deadline. `i64::MAX` stands for
/// "never trips", the disarmed state before the first valid command.
pub struct Watchdog {
    pub deadline_millis: i64,
}

impl Watchdog {
    /// Is the watchdog disarmed?
    pub open spec fn disarmed(&self) -> bool {
        self.deadline_millis == i64::MAX
    }

    /// A fresh watchdog never trips until the first feed.
    pub fn new() -> (r: Watchdog)
        ensures
            r.disarmed(),
    {
        Watchdog { deadline_millis: i64::MAX }
    }

    /// Feed the watchdog: no trip for one timeout window from `now`.
    pub fn feed(&mut self, now_millis: i64)
        requires
            now_millis <= i64::MAX - WATCHDOG_TIMEOUT_MILLIS,
        ensures
            final(self).deadline_millis == spec_fed_deadline(now_millis as int),
    {
        self.deadline_millis = now_millis + WATCHDOG_TIMEOUT_MILLIS;
    }

    /// One poll tick: reports whether the watchdog tripped, in which case
    /// the caller halts all devices and the deadline is disarmed so the
    /// trip cannot repeat before the next feed.
    pub fn poll(&mut self, now_millis: i64) -> (tripped: bool)
        ensures
            (final(self).deadline_millis as int, tripped) == spec_poll_step(
                old(self).deadline_millis as int,
                now_millis as int,
            ),
            tripped == (now_millis > old(self).deadline_millis),
            tripped ==> final(self).disarmed(),
            !tripped ==> *final(self) == *old(self),
    {
        if now_millis > self.deadline_millis {
            self.deadline_millis = i64::MAX;
            true
        } else {
            false
        }
    }
}

/// The watchdog trips exactly once per silence period: after a feed at
/// `t0`, a poll trips exactly when its time lies beyond the timeout
/// window, and once it has tripped, no later poll at any representable
/// time can trip again before another feed.
pub proof fn lemma_watchdog_trips_once(t0: int, t1: int, t2: int)
    requires
        t2 <= i64::MAX as int,
    ensures
        ({
            let d1 = spec_fed_deadline(t0);
            let s1 = spec_poll_step(d1, t1);
            let s2 = spec_poll_step(s1.0, t2);
            &&& s1.1 == (t1 > t0 + WATCHDOG_TIMEOUT_MILLIS)
            &&& (s1.1 ==> !s2.1)
        }),
{
}

} // verus!
