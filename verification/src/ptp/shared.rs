//! The disciplined clock: a local monotonic timeline, and the correction that maps it onto
//! PTP time.

use std::time::{Duration, Instant};

use vstd::prelude::*;

use crate::ptp::message::Timestamp;

verus! {

/// A point on the local monotonic clock (`std::time::Instant`).
#[verifier::external_type_specification]
#[verifier::external_body]
pub struct ExInstant(Instant);

/// The most nanoseconds that a `Duration` holds: `u64::MAX` seconds and 999,999,999
/// nanoseconds.
pub const LONGEST_NANOS: u128 = 18_446_744_073_709_551_615_999_999_999;

/// `Instant::now` reads the clock. Nothing is claimed of what it reads.
pub assume_specification[ Instant::now ]() -> (r: Instant);

/// `Instant::elapsed` says how long ago an instant was. Nothing is claimed of how long.
pub assume_specification[ Instant::elapsed ](i: &Instant) -> (r: Duration);

/// `Duration::as_nanos` gives the whole of a duration in nanoseconds. Claimed of it: the
/// count is at most that of the longest duration.
pub assume_specification[ Duration::as_nanos ](d: &Duration) -> (r: u128)
    ensures
        r <= LONGEST_NANOS,
;

/// Nanoseconds since the epoch as a timestamp, its seconds around the end of 64 bits.
pub open spec fn timestamp_of(total: int) -> Timestamp {
    Timestamp {
        seconds: ((total / 1_000_000_000) % 0x1_0000_0000_0000_0000) as u64,
        nanos: (total % 1_000_000_000) as u32,
    }
}

/// A nanosecond count shifted, and never before the epoch.
pub open spec fn shifted(total: int, offset: int) -> int {
    if total + offset < 0 {
        0
    } else {
        total + offset
    }
}

/// Nanoseconds since the epoch as a timestamp.
pub fn timestamp_from_nanos(total: u128) -> (r: Timestamp)
    ensures
        r == timestamp_of(total as int),
{
    let seconds: u128 = total / 1_000_000_000;
    proof {
        assert((seconds as u64) == seconds % 0x1_0000_0000_0000_0000) by (bit_vector);
    }
    Timestamp { seconds: seconds as u64, nanos: (total % 1_000_000_000) as u32 }
}

/// A nanosecond count shifted by an offset, and never before the epoch.
pub fn shift_nanos(total: u128, offset: i64) -> (r: u128)
    requires
        total + i64::MAX <= i128::MAX,
    ensures
        r == shifted(total as int, offset as int),
{
    let moved: i128 = total as i128 + offset as i128;
    if moved < 0 {
        0
    } else {
        moved as u128
    }
}

/// A local monotonic timeline plus the correction that maps it onto PTP time.
#[derive(Clone, Copy, Debug)]
pub struct SharedClock {
    epoch_instant: Instant,
    epoch_nanos: u128,
    offset_nanos: i64,
    steps: u64,
    measurements: u64,
}

/// The clock as a mathematical value.
pub struct ClockView {
    /// Where its timeline starts.
    pub start: Instant,
    pub epoch: int,
    pub offset: int,
    pub steps: u64,
    pub measurements: u64,
}

impl View for SharedClock {
    type V = ClockView;

    closed spec fn view(&self) -> ClockView {
        ClockView {
            start: self.epoch_instant,
            epoch: self.epoch_nanos as int,
            offset: self.offset_nanos as int,
            steps: self.steps,
            measurements: self.measurements,
        }
    }
}

impl ClockView {
    /// Whether `elapsed` is a reading of how long ago the timeline started.
    pub open spec fn reads(self, elapsed: u128) -> bool {
        exists|d: Duration| #[trigger]
            call_ensures(Instant::elapsed, (&self.start,), d) && call_ensures(Duration::as_nanos, (&d,), elapsed)
    }

    /// Undisciplined local time, this long after the timeline's start.
    pub open spec fn local(self, elapsed: int) -> Timestamp {
        timestamp_of(self.epoch + elapsed)
    }

    /// PTP time as believed, this long after the timeline's start.
    pub open spec fn ptp_nanos(self, elapsed: int) -> int {
        shifted(self.epoch + elapsed, self.offset)
    }
}

/// The clock with what the servo says taken over.
pub open spec fn disciplined(c: ClockView, offset: int, steps: u64, measurements: u64) -> ClockView {
    ClockView { offset, steps, measurements, ..c }
}

impl SharedClock {
    /// The epoch leaves room for the longest run.
    pub closed spec fn wf(&self) -> bool {
        self.epoch_nanos + LONGEST_NANOS + i64::MAX <= i128::MAX
    }

    /// A clock whose timeline starts now, at the given time.
    pub fn new(epoch_nanos: u128) -> (r: Self)
        requires
            epoch_nanos + LONGEST_NANOS + i64::MAX <= i128::MAX,
        ensures
            r.wf(),
            call_ensures(Instant::now, (), r@.start),
            r@ == (ClockView {
                start: r@.start,
                epoch: epoch_nanos as int,
                offset: 0,
                steps: 0,
                measurements: 0,
            }),
    {
        SharedClock { epoch_instant: Instant::now(), epoch_nanos, offset_nanos: 0, steps: 0, measurements: 0 }
    }

    /// How long ago the timeline started, in nanoseconds.
    fn elapsed(&self) -> (r: u128)
        ensures
            self@.reads(r),
            r <= LONGEST_NANOS,
    {
        let d = self.epoch_instant.elapsed();
        let r: u128 = d.as_nanos();
        assert(call_ensures(Instant::elapsed, (&self@.start,), d));
        assert(call_ensures(Duration::as_nanos, (&d,), r));
        r
    }

    /// Undisciplined local time.
    pub fn local_now(&self) -> (r: Timestamp)
        requires
            self.wf(),
        ensures
            exists|n: u128| #[trigger] self@.reads(n) && n <= LONGEST_NANOS && r == self@.local(n as int),
    {
        let elapsed: u128 = self.elapsed();
        self.local_at(elapsed)
    }

    /// Undisciplined local time, `elapsed` nanoseconds after the timeline's start.
    pub fn local_at(&self, elapsed: u128) -> (r: Timestamp)
        requires
            self.wf(),
            elapsed <= LONGEST_NANOS,
        ensures
            r == self@.local(elapsed as int),
    {
        timestamp_from_nanos(self.epoch_nanos + elapsed)
    }

    /// PTP time as currently believed.
    pub fn now(&self) -> (r: Timestamp)
        requires
            self.wf(),
        ensures
            exists|n: u128| #[trigger]
                self@.reads(n) && n <= LONGEST_NANOS && r == timestamp_of(self@.ptp_nanos(n as int)),
    {
        let total: u128 = self.now_nanos();
        timestamp_from_nanos(total)
    }

    /// PTP time as a flat nanosecond count, for arithmetic.
    pub fn now_nanos(&self) -> (r: u128)
        requires
            self.wf(),
        ensures
            exists|n: u128| #[trigger] self@.reads(n) && n <= LONGEST_NANOS && r == self@.ptp_nanos(n as int),
    {
        let elapsed: u128 = self.elapsed();
        self.nanos_at(elapsed)
    }

    /// PTP time, `elapsed` nanoseconds after the timeline's start.
    pub fn nanos_at(&self, elapsed: u128) -> (r: u128)
        requires
            self.wf(),
            elapsed <= LONGEST_NANOS,
        ensures
            r == self@.ptp_nanos(elapsed as int),
    {
        shift_nanos(self.epoch_nanos + elapsed, self.offset_nanos)
    }

    pub fn offset_nanos(&self) -> (r: i64)
        ensures
            r == self@.offset,
    {
        self.offset_nanos
    }

    /// Number of clock steps. A change means a timestamp discontinuity is legitimate.
    pub fn steps(&self) -> (r: u64)
        ensures
            r == self@.steps,
    {
        self.steps
    }

    /// Completed measurements.
    pub fn measurements(&self) -> (r: u64)
        ensures
            r == self@.measurements,
    {
        self.measurements
    }

    /// Take over what the servo says.
    pub fn publish(&mut self, offset_nanos: i64, steps: u64, measurements: u64)
        requires
            old(self).wf(),
        ensures
            final(self).wf(),
            final(self)@ == disciplined(old(self)@, offset_nanos as int, steps, measurements),
    {
        self.offset_nanos = offset_nanos;
        self.steps = steps;
        self.measurements = measurements;
    }
}

/// Publishing an offset shifts the time that the clock reports by exactly the change, as
/// long as neither falls before the epoch.
pub proof fn law_publishing_shifts_time(c: ClockView, offset: int, elapsed: int)
    requires
        c.epoch + elapsed + c.offset >= 0,
        c.epoch + elapsed + offset >= 0,
    ensures
        (ClockView { offset, ..c }).ptp_nanos(elapsed) - c.ptp_nanos(elapsed) == offset - c.offset,
        (ClockView { offset, ..c }).local(elapsed) == c.local(elapsed),
{
}

} // verus!
