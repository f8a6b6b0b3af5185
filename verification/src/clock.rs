//! Moments and lengths of time.
//!
//! The rate limiter reasons about time in whole nanoseconds. The arithmetic is
//! chrono's: each function below that is marked as trusted makes one call into
//! it and says, over nanoseconds, what comes back.
use chrono::{DateTime, TimeDelta};
use mockable::{Clock, DefaultClock};
use std::time::Duration;
use vstd::prelude::*;

verus! {

/// Nanoseconds in one second.
pub const NANOS_PER_SEC: u32 = 1_000_000_000;

/// First second that the calendar can represent, counted from the Unix epoch.
pub const MIN_SECS: i64 = -8_334_601_228_800;

/// Last second that the calendar can represent, counted from the Unix epoch.
pub const MAX_SECS: i64 = 8_210_266_876_799;

/// Largest length, in nanoseconds, of a signed time difference: `i64::MAX` milliseconds.
pub open spec fn max_delta() -> int {
    i64::MAX * 1_000_000
}

/// A moment in UTC: whole seconds since the Unix epoch and the nanoseconds after them.
#[derive(Debug, Clone, Copy, PartialEq, Eq, Structural)]
pub struct Timestamp {
    pub secs: i64,
    pub nanos: u32,
}

impl Timestamp {
    /// The moment lies on the calendar and its nanoseconds stay below one second.
    pub open spec fn wf(self) -> bool {
        MIN_SECS <= self.secs <= MAX_SECS && self.nanos < NANOS_PER_SEC
    }

    /// Nanoseconds since the Unix epoch.
    pub open spec fn total(self) -> int {
        self.secs * 1_000_000_000 + self.nanos
    }

    /// Whether this moment is strictly before `other`.
    pub fn before(self, other: Timestamp) -> (r: bool)
        requires
            self.wf(),
            other.wf(),
        ensures
            r == (self.total() < other.total()),
    {
        self.secs < other.secs || (self.secs == other.secs && self.nanos < other.nanos)
    }
}

/// A length of time that cannot be negative.
#[derive(Debug, Clone, Copy, PartialEq, Eq, Structural)]
pub struct Span {
    pub secs: u64,
    pub nanos: u32,
}

impl Span {
    /// The nanoseconds stay below one second.
    pub open spec fn wf(self) -> bool {
        self.nanos < NANOS_PER_SEC
    }

    /// Length in nanoseconds.
    pub open spec fn total(self) -> int {
        self.secs * 1_000_000_000 + self.nanos
    }

    /// A span of whole seconds.
    pub fn from_secs(secs: u64) -> (r: Span)
        ensures
            r.wf(),
            r.total() == secs * 1_000_000_000,
            r == (Span { secs, nanos: 0 }),
    {
        Span { secs, nanos: 0 }
    }

    /// A span of milliseconds.
    pub fn from_millis(millis: u64) -> (r: Span)
        ensures
            r.wf(),
            r.total() == millis * 1_000_000,
    {
        Span { secs: millis / 1000, nanos: (millis % 1000) as u32 * 1_000_000 }
    }
}

/// How a length of time is written for people: `1.5s`, `20ms`.
pub uninterp spec fn span_text(secs: u64, nanos: u32) -> Seq<char>;

/// Trusted: the text that `Duration` gives of itself for debugging. Its wording is
/// std's own; it depends on the length alone.
#[verifier::external_body]
pub(crate) fn describe_span(span: Span) -> (r: String)
    requires
        span.wf(),
    ensures
        r@ == span_text(span.secs, span.nanos),
{
    format!("{:?}", Duration::new(span.secs, span.nanos))
}

/// A signed difference between two moments; seconds and nanoseconds carry the same sign.
#[derive(Debug, Clone, Copy, PartialEq, Eq, Structural)]
pub struct Delta {
    pub secs: i64,
    pub nanos: i32,
}

impl Delta {
    /// The parts agree in sign, the nanoseconds stay below one second, and the
    /// difference is within the supported range.
    pub open spec fn wf(self) -> bool {
        &&& -1_000_000_000 < self.nanos < 1_000_000_000
        &&& self.secs > 0 ==> self.nanos >= 0
        &&& self.secs < 0 ==> self.nanos <= 0
        &&& -max_delta() <= self.total() <= max_delta()
    }

    /// Signed length in nanoseconds.
    pub open spec fn total(self) -> int {
        self.secs * 1_000_000_000 + self.nanos
    }

    /// Whether this difference is at least as long as `other`.
    pub fn at_least(self, other: Delta) -> (r: bool)
        requires
            self.wf(),
            other.wf(),
        ensures
            r == (self.total() >= other.total()),
    {
        self.secs > other.secs || (self.secs == other.secs && self.nanos >= other.nanos)
    }
}

/// Trusted: `chrono::TimeDelta::from_std`. It accepts exactly the lengths up to
/// `i64::MAX` milliseconds and keeps their value.
#[verifier::external_body]
pub(crate) fn delta_from_std(span: Span) -> (r: Option<Delta>)
    requires
        span.wf(),
    ensures
        r is Some <==> span.total() <= max_delta(),
        r matches Some(d) ==> d.wf() && d.total() == span.total(),
{
    let delta = TimeDelta::from_std(Duration::new(span.secs, span.nanos)).ok()?;
    Some(Delta { secs: delta.num_seconds(), nanos: delta.subsec_nanos() })
}

/// Trusted: `chrono::TimeDelta::to_std`. It accepts exactly the differences that
/// are not negative and keeps their value.
#[verifier::external_body]
pub(crate) fn delta_to_std(d: Delta) -> (r: Option<Span>)
    requires
        d.wf(),
    ensures
        r is Some <==> d.total() >= 0,
        r matches Some(span) ==> span.wf() && span.total() == d.total(),
{
    let delta = TimeDelta::seconds(d.secs) + TimeDelta::nanoseconds(i64::from(d.nanos));
    let span = delta.to_std().ok()?;
    Some(Span { secs: span.as_secs(), nanos: span.subsec_nanos() })
}

/// Trusted: subtraction of one `chrono::TimeDelta` from another, which is exact.
/// It panics when the result leaves the supported range.
#[verifier::external_body]
pub(crate) fn delta_minus(a: Delta, b: Delta) -> (r: Delta)
    requires
        a.wf(),
        b.wf(),
        -max_delta() <= a.total() - b.total() <= max_delta(),
    ensures
        r.wf(),
        r.total() == a.total() - b.total(),
{
    let left = TimeDelta::seconds(a.secs) + TimeDelta::nanoseconds(i64::from(a.nanos));
    let right = TimeDelta::seconds(b.secs) + TimeDelta::nanoseconds(i64::from(b.nanos));
    let delta = left - right;
    Delta { secs: delta.num_seconds(), nanos: delta.subsec_nanos() }
}

/// Trusted: subtraction of one `chrono::DateTime<Utc>` from another, which is
/// exact for moments outside leap seconds and never overflows.
#[verifier::external_body]
pub(crate) fn moment_diff(a: Timestamp, b: Timestamp) -> (r: Delta)
    requires
        a.wf(),
        b.wf(),
    ensures
        r.wf(),
        r.total() == a.total() - b.total(),
{
    let left = DateTime::from_timestamp(a.secs, a.nanos).unwrap();
    let right = DateTime::from_timestamp(b.secs, b.nanos).unwrap();
    let delta = left - right;
    Delta { secs: delta.num_seconds(), nanos: delta.subsec_nanos() }
}

/// Trusted: subtraction of a `chrono::TimeDelta` from a `chrono::DateTime<Utc>`,
/// which is exact for moments outside leap seconds. It panics when the result
/// leaves the calendar.
#[verifier::external_body]
pub(crate) fn moment_minus(a: Timestamp, d: Delta) -> (r: Timestamp)
    requires
        a.wf(),
        d.wf(),
        MIN_SECS * 1_000_000_000 <= a.total() - d.total() < (MAX_SECS + 1) * 1_000_000_000,
    ensures
        r.wf(),
        r.total() == a.total() - d.total(),
{
    let delta = TimeDelta::seconds(d.secs) + TimeDelta::nanoseconds(i64::from(d.nanos));
    let moment = DateTime::from_timestamp(a.secs, a.nanos).unwrap() - delta;
    Timestamp { secs: moment.timestamp(), nanos: moment.timestamp_subsec_nanos() }
}

/// The system's clock, with the readings that were taken from it so far.
pub struct SystemClock {
    readings: Ghost<Seq<Timestamp>>,
}

impl SystemClock {
    /// The readings that were taken so far, the latest at the end.
    pub closed spec fn readings(&self) -> Seq<Timestamp> {
        self.readings@
    }

    /// The clock before it is read.
    pub fn new() -> (r: SystemClock)
        ensures
            r.readings().len() == 0,
    {
        SystemClock { readings: Ghost(Seq::empty()) }
    }
}

/// Trusted: `mockable::DefaultClock::utc`, the system's time. Each call takes one
/// reading and returns it. It is a moment on the calendar, outside leap seconds, and
/// not before the Unix epoch. Nothing is claimed of how two readings relate: the
/// system's clock may be set back between them.
#[verifier::external_body]
pub(crate) fn system_now(clock: &mut SystemClock) -> (r: Timestamp)
    ensures
        final(clock).readings() == old(clock).readings().push(r),
        r.wf(),
        r.secs >= 0,
{
    let moment = DefaultClock.utc();
    Timestamp { secs: moment.timestamp(), nanos: moment.timestamp_subsec_nanos() }
}

/// Lengths are counted in nanoseconds, so that moments and differences compare by
/// their seconds first.
pub proof fn law_time_is_counted_in_nanoseconds(a: Timestamp, b: Timestamp, d: Delta, s: Span)
    ensures
        a.total() == a.secs * 1_000_000_000 + a.nanos,
        d.total() == d.secs * 1_000_000_000 + d.nanos,
        s.total() == s.secs * 1_000_000_000 + s.nanos,
        a.wf() && b.wf() ==> (a.total() < b.total() <==> a.secs < b.secs || (a.secs == b.secs
            && a.nanos < b.nanos)),
        s.wf() <==> s.nanos < 1_000_000_000,
{
}

} // verus!
