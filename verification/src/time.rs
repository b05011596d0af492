//! Spans of time and the monotonic clock that the controller reads.
use vstd::prelude::*;

verus! {

/// Nanoseconds in one second.
pub const NANOS_PER_SEC: i128 = 1_000_000_000;

/// Bound on the absolute value of every instant that the controller computes with,
/// in nanoseconds: a few times the longest span.
pub const INSTANT_LIMIT: i128 = 100_000_000_000_000_000_000_000_000_000;

/// A span of time: whole seconds and a rest in nanoseconds.
#[derive(Clone, Copy, Debug, PartialEq, Eq, PartialOrd, Ord, Structural)]
pub struct Duration {
    pub secs: u64,
    pub subsec_nanos: u32,
}

impl Duration {
    /// The span in nanoseconds.
    pub open spec fn nanos(self) -> int {
        self.secs * 1_000_000_000 + self.subsec_nanos
    }

    /// The empty span.
    pub fn zero() -> (d: Self)
        ensures
            d == (Duration { secs: 0, subsec_nanos: 0 }),
            d.nanos() == 0,
    {
        Duration { secs: 0, subsec_nanos: 0 }
    }

    /// A span of whole seconds.
    pub fn from_secs(secs: u64) -> (d: Self)
        ensures
            d == (Duration { secs, subsec_nanos: 0 }),
            d.nanos() == secs * 1_000_000_000,
    {
        Duration { secs, subsec_nanos: 0 }
    }

    /// A span of milliseconds.
    pub fn from_millis(millis: u64) -> (d: Self)
        ensures
            d.secs == millis / 1000,
            d.subsec_nanos == (millis % 1000) * 1_000_000,
            d.nanos() == millis * 1_000_000,
    {
        Duration { secs: millis / 1000, subsec_nanos: ((millis % 1000) as u32) * 1_000_000 }
    }

    /// The span in nanoseconds.
    pub fn as_nanos(self) -> (n: i128)
        ensures
            n == self.nanos(),
            0 <= n < INSTANT_LIMIT / 4,
    {
        (self.secs as i128) * NANOS_PER_SEC + self.subsec_nanos as i128
    }

    /// The longer of two spans.
    pub fn longer(self, other: Self) -> (d: Self)
        ensures
            d == if self.nanos() >= other.nanos() { self } else { other },
    {
        if self.as_nanos() >= other.as_nanos() {
            self
        } else {
            other
        }
    }
}

/// An instant that the controller may compute with: nanoseconds since the clock's
/// origin, negative before it.
pub open spec fn instant_ok(t: int) -> bool {
    -INSTANT_LIMIT < t < INSTANT_LIMIT
}

/// Time from `t` to `now`; nothing when `t` lies ahead.
pub open spec fn elapsed(now: int, t: int) -> int {
    if now >= t {
        now - t
    } else {
        0
    }
}

/// Whole seconds from `t` to `now`, at most `u64::MAX`.
pub open spec fn age_secs(now: int, t: int) -> u64 {
    let s = elapsed(now, t) / 1_000_000_000;
    if s > u64::MAX {
        u64::MAX
    } else {
        s as u64
    }
}

/// Time from `t` to `now`; nothing when `t` lies ahead.
pub fn time_since(now: i128, t: i128) -> (d: i128)
    requires
        instant_ok(now as int),
        instant_ok(t as int),
    ensures
        d == elapsed(now as int, t as int),
{
    if now >= t {
        now - t
    } else {
        0
    }
}

/// Whole seconds from `t` to `now`, at most `u64::MAX`.
pub fn whole_secs_since(now: i128, t: i128) -> (s: u64)
    requires
        instant_ok(now as int),
        instant_ok(t as int),
    ensures
        s == age_secs(now as int, t as int),
{
    let secs: i128 = time_since(now, t) / NANOS_PER_SEC;
    if secs > u64::MAX as i128 {
        u64::MAX
    } else {
        secs as u64
    }
}

#[verifier::external_type_specification]
#[verifier::external_body]
pub struct ExInstant(std::time::Instant);

/// `std::time::Instant::now`: the current reading of the monotonic clock.
/// Nothing is claimed of the instant.
#[verifier::external_body]
fn instant_now() -> (t: std::time::Instant) {
    std::time::Instant::now()
}

/// `std::time::Instant::elapsed`: the time passed since `origin`. Nothing is
/// claimed of the span but that its rest is below one second.
#[verifier::external_body]
fn instant_elapsed(origin: &std::time::Instant) -> (d: Duration)
    ensures
        d.subsec_nanos < 1_000_000_000,
{
    let span = origin.elapsed();
    Duration { secs: span.as_secs(), subsec_nanos: span.subsec_nanos() }
}

/// A monotonic clock that counts from the moment it was started.
pub struct Clock {
    origin: std::time::Instant,
}

impl Clock {
    /// A clock whose origin is now.
    pub fn start() -> (c: Self) {
        Clock { origin: instant_now() }
    }

    /// The time since the clock's origin.
    pub fn now(&self) -> (d: Duration)
        ensures
            d.subsec_nanos < 1_000_000_000,
    {
        instant_elapsed(&self.origin)
    }
}

/// A span counts its seconds and nanoseconds.
pub proof fn law_span_length(d: Duration)
    ensures
        d.nanos() - d.subsec_nanos == 1_000_000_000 * d.secs,
{
}

/// The time since an instant is the difference, and nothing if the instant lies
/// ahead; in seconds it is rounded down.
pub proof fn law_time_since(now: int, t: int)
    ensures
        t <= now ==> t + elapsed(now, t) == now,
        t > now ==> elapsed(now, t) == 0,
        t <= now && now - t < 0xffff_ffff_ffff_ffff * 1_000_000_000 ==> age_secs(now, t)
            * 1_000_000_000 <= now - t < (age_secs(now, t) + 1) * 1_000_000_000,
{
}

} // verus!
