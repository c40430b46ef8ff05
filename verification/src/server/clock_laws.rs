//! What timestamps and deadlines come out of PTP time.

use vstd::prelude::*;

use crate::ptp::message::Timestamp;
use crate::ptp::servo_laws::flat;
use crate::ptp::shared::{
    disciplined, timestamp_from_nanos, timestamp_of, ClockView, SharedClock, LONGEST_NANOS,
};
use crate::server::clock::{
    media_fits, media_paced, paced, planned, ticked, wake_period, MediaPacer, MediaPacerView, MediaTimeline, Pacer, TimelineView,
    Wait,
};

verus! {

/// PTP time counted in samples, around the end of 32 bits.
pub open spec fn media_time(rate: u32, t: Timestamp) -> int {
    ((flat(t) * rate) / 1_000_000_000) % 0x1_0000_0000
}

/// How far apart two timestamps are, the short way around.
pub open spec fn apart(a: int, b: int) -> int {
    let d = (a - b) % 0x1_0000_0000;
    if d < 0x8000_0000 {
        d
    } else {
        0x1_0000_0000 - d
    }
}

proof fn lemma_media_time(rate: u32, t: Timestamp)
    ensures
        crate::ptp::servo::samples_at(rate, t) % 0x1_0000_0000 == media_time(rate, t),
{
    let s = t.seconds as int;
    let n = t.nanos * rate;
    assert(flat(t) * rate == n + (s * rate) * 1_000_000_000) by (nonlinear_arith)
        requires
            flat(t) == s * 1_000_000_000 + t.nanos,
            n == t.nanos * rate,
    ;
    vstd::arithmetic::div_mod::lemma_hoist_over_denominator(n, s * rate, 1_000_000_000);
}

/// A running timeline moves on by one block for every block, and is put back onto PTP time
/// only where that would leave it further off than it may stray.
pub proof fn law_timeline_follows_ptp(v: TimelineView, ptp: Option<Timestamp>, stepped: bool)
    requires
        v.started,
    ensures
        ({
            let after = ticked(v, ptp, stepped);
            let on = (v.current + v.block) % 0x1_0000_0000;
            &&& after.started
            &&& after.rate == v.rate
            &&& after.block == v.block
            &&& after.max_drift == v.max_drift
            &&& match ptp {
                None => after.current == on && after.realignments == v.realignments,
                Some(t) => if stepped {
                    after.current == media_time(v.rate, t) && after.realignments == v.realignments
                } else if apart(on, media_time(v.rate, t)) <= v.max_drift {
                    after.current == on && after.realignments == v.realignments
                } else {
                    after.current == media_time(v.rate, t) && (v.realignments < u64::MAX ==> after.realignments
                        == v.realignments + 1)
                },
            }
        }),
{
    crate::bytes::lemma_radix_values();
    if let Some(t) = ptp {
        lemma_media_time(v.rate, t);
    }
}

/// The first block is stamped with PTP time, where there is any, and otherwise with the
/// timeline's own count as it stands.
pub proof fn law_timeline_starts_on_ptp(v: TimelineView, ptp: Option<Timestamp>, stepped: bool)
    requires
        !v.started,
    ensures
        ({
            let after = ticked(v, ptp, stepped);
            &&& after.started
            &&& after.realignments == v.realignments
            &&& after.current == match ptp {
                None => v.current as int,
                Some(t) => media_time(v.rate, t),
            }
        }),
{
    if let Some(t) = ptp {
        lemma_media_time(v.rate, t);
    }
}

/// A new timeline has not started, and may stray by a quarter of a second.
pub proof fn law_new_timeline_may_stray_a_quarter_second(rate: u32, block: u32, r: MediaTimeline)
    requires
        call_ensures(MediaTimeline::new, (rate, block), r),
    ensures
        !r@.started,
        r@.rate == rate,
        r@.block == block,
        4 * r@.max_drift <= rate < 4 * r@.max_drift + 4,
        r@.realignments == 0,
{
}

/// Whether a wait that begins now ends at the deadline: it sleeps up to it, or up to four tenths
/// of a millisecond short of it where the rest is spun away, and never past it.
pub open spec fn waits_until(w: Wait, now: int, due: int, spun: bool) -> bool {
    &&& w matches Wait::Until { sleep_nanos, deadline, spin }
    &&& deadline == due
    &&& spin == spun
    &&& now + sleep_nanos <= due
    &&& !spun && due - now <= u64::MAX ==> now + sleep_nanos == due
    &&& spun && 400_000 <= due - now <= u64::MAX ==> now + sleep_nanos == due - 400_000
    &&& spun && due - now < 400_000 ==> sleep_nanos == 0
}

/// The local pacer's deadlines are one period apart, and it waits for the next of them; one that
/// has passed is missed, and the schedule goes on from now.
pub proof fn law_local_deadlines_are_a_period_apart(p: Pacer, now: u128)
    requires
        p.next + p.period_nanos <= u128::MAX,
    ensures
        ({
            let (after, w) = paced(p, now);
            let due = p.next + p.period_nanos;
            &&& after.period_nanos == p.period_nanos
            &&& after.spin == p.spin
            &&& due <= now ==> w == Wait::Missed && after.next == now
            &&& due > now ==> after.next == due && waits_until(w, now as int, due, p.spin)
        }),
{
}

/// Without PTP time the media pacer goes by its local one, and nothing else of it changes; with
/// PTP time it goes by that, whatever local time is.
pub proof fn law_pacing_falls_back_on_local_time(v: MediaPacerView, ptp: u128, local: u128, other: u128)
    requires
        v.local.next + v.local.period_nanos <= u128::MAX,
    ensures
        ({
            let (after, w) = planned(v, None, local);
            let due = v.local.next + v.local.period_nanos;
            &&& after == (MediaPacerView { local: after.local, ..v })
            &&& after.local.period_nanos == v.local.period_nanos
            &&& after.local.spin == v.local.spin
            &&& due <= local ==> w == Wait::Missed && after.local.next == local
            &&& due > local ==> after.local.next == due && waits_until(w, local as int, due, v.local.spin)
        }),
        planned(v, Some(ptp), local) == planned(v, Some(ptp), other),
        planned(v, Some(ptp), local) == media_paced(v, ptp),
{
    law_local_deadlines_are_a_period_apart(v.local, local);
}

/// On PTP time the deadlines are one period apart, from one period after the first reading on;
/// one that is past, or more than a second away, is missed and counted, and the next is one
/// period from now.
pub proof fn law_media_deadlines_are_a_period_apart(v: MediaPacerView, now: u128)
    requires
        media_fits(v, now),
    ensures
        ({
            let (after, w) = media_paced(v, now);
            let due = if v.started {
                v.target + v.period
            } else {
                now + v.period
            };
            &&& after.started
            &&& after.period == v.period
            &&& after.local == v.local
            &&& now <= due <= now + 1_000_000_000 ==> after.target == due && after.resyncs == v.resyncs && waits_until(
                w,
                now as int,
                due,
                v.spin,
            )
            &&& !(now <= due <= now + 1_000_000_000) ==> w == Wait::Missed && after.target == now + v.period && (
            v.resyncs < u64::MAX ==> after.resyncs == v.resyncs + 1)
        }),
{
}

/// A new pacer has no deadline on PTP time yet, and its local schedule starts now.
pub proof fn law_new_pacer_starts_now(period: u64, now: u128, spin: bool, r: MediaPacer)
    requires
        call_ensures(MediaPacer::new, (period, now, spin), r),
    ensures
        !r@.started,
        r@.period == period,
        r@.spin == spin,
        r@.local.next == now,
        r@.local.period_nanos == period,
        r@.local.spin == spin,
        r@.resyncs == 0,
{
}

/// A wake period is as long as its samples last, to the nanosecond.
pub proof fn law_wake_period_is_its_samples(blocks: usize, block: usize, rate: u32, r: u64)
    requires
        call_ensures(wake_period, (blocks, block, rate), r),
        rate > 0,
    ensures
        r * rate <= blocks * block * 1_000_000_000 < (r + 1) * rate,
{
    let n = blocks * block * 1_000_000_000;
    assert(n >= 0) by (nonlinear_arith)
        requires
            n == blocks * block * 1_000_000_000,
    ;
    vstd::arithmetic::div_mod::lemma_fundamental_div_mod(n, rate as int);
    assert(r * rate <= n < (r + 1) * rate) by (nonlinear_arith)
        requires
            n == rate * r + n % (rate as int),
            0 <= n % (rate as int) < rate,
    ;
}

/// A nanosecond count and its timestamp are the same time.
pub proof fn law_timestamp_is_its_nanoseconds(total: u128, t: Timestamp)
    requires
        call_ensures(timestamp_from_nanos, (total,), t),
        total < 0x1_0000_0000_0000_0000 * 1_000_000_000,
    ensures
        flat(t) == total,
        t.nanos < 1_000_000_000,
{
}

/// The clock's local time is its epoch and the time since; PTP time is that and the offset that
/// the servo gave, and never before the epoch of timestamps.
pub proof fn law_clock_counts_from_its_epoch(c: SharedClock, elapsed: u128, local: Timestamp, ptp: u128)
    requires
        call_ensures(SharedClock::local_at, (&c, elapsed), local),
        call_ensures(SharedClock::nanos_at, (&c, elapsed), ptp),
        0 <= c@.epoch + elapsed < 0x1_0000_0000_0000_0000 * 1_000_000_000,
    ensures
        flat(local) == c@.epoch + elapsed,
        c@.epoch + elapsed + c@.offset >= 0 ==> ptp == c@.epoch + elapsed + c@.offset,
        c@.epoch + elapsed + c@.offset < 0 ==> ptp == 0,
{
}

/// Taking over what the servo says sets the offset and both counts to it, and leaves where the
/// timeline starts alone.
pub proof fn law_clock_takes_over_what_the_servo_says(c: ClockView, offset: int, steps: u64, measurements: u64)
    ensures
        disciplined(c, offset, steps, measurements).offset == offset,
        disciplined(c, offset, steps, measurements).steps == steps,
        disciplined(c, offset, steps, measurements).measurements == measurements,
        disciplined(c, offset, steps, measurements).start == c.start,
        disciplined(c, offset, steps, measurements).epoch == c.epoch,
{
}

/// The clock read at some moment gives, for one time that has passed since its start, local time
/// as the epoch and that time, and PTP time as the offset more; and it reports what it was told.
pub proof fn law_clock_is_read_at_a_moment(
    c: SharedClock,
    local: Timestamp,
    ptp: Timestamp,
    nanos: u128,
    offset: i64,
    steps: u64,
    measurements: u64,
)
    requires
        call_ensures(SharedClock::local_now, (&c,), local),
        call_ensures(SharedClock::now, (&c,), ptp),
        call_ensures(SharedClock::now_nanos, (&c,), nanos),
        call_ensures(SharedClock::offset_nanos, (&c,), offset),
        call_ensures(SharedClock::steps, (&c,), steps),
        call_ensures(SharedClock::measurements, (&c,), measurements),
    ensures
        exists|n: u128| #[trigger]
            c@.reads(n) && (0 <= c@.epoch + n < 0x1_0000_0000_0000_0000 * 1_000_000_000 ==> flat(local) == c@.epoch + n),
        exists|n: u128| #[trigger]
            c@.reads(n) && (0 <= c@.epoch + n + c@.offset < 0x1_0000_0000_0000_0000 * 1_000_000_000 ==> flat(ptp)
                == c@.epoch + n + c@.offset),
        exists|n: u128| #[trigger]
            c@.reads(n) && (0 <= c@.epoch + n + c@.offset ==> nanos == c@.epoch + n + c@.offset),
        offset == c@.offset,
        steps == c@.steps,
        measurements == c@.measurements,
{
    let a = choose|n: u128| #[trigger] c@.reads(n) && n <= LONGEST_NANOS && local == c@.local(n as int);
    let b = choose|n: u128| #[trigger]
        c@.reads(n) && n <= LONGEST_NANOS && ptp == timestamp_of(c@.ptp_nanos(n as int));
    let d = choose|n: u128| #[trigger] c@.reads(n) && n <= LONGEST_NANOS && nanos == c@.ptp_nanos(n as int);
    assert(c@.reads(a) && c@.reads(b) && c@.reads(d));
}

/// Timelines and pacers report how often they had to start over.
pub proof fn law_restarts_are_reported(t: MediaTimeline, realignments: u64, p: MediaPacer, resyncs: u64)
    requires
        call_ensures(MediaTimeline::realignments, (&t,), realignments),
        call_ensures(MediaPacer::resyncs, (&p,), resyncs),
    ensures
        realignments == t@.realignments,
        resyncs == p@.resyncs,
{
}

} // verus!
