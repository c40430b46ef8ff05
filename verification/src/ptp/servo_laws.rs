//! What the measurement, the servo and the media clock do, in terms of the times that go in
//! and come out.

use vstd::prelude::*;

use crate::ptp::message::Timestamp;
use crate::ptp::servo::{
    geometry_by, geometry_is, measure, packet_samples, slewed_by, updated, DelaySample, GeometrySteps, LockState,
    MediaClock, Measurement, Servo, ServoView, SlewSteps, SyncSample,
};
use crate::sample::{exact, ratio_by, rounded_is, Ratio, Sample};

verus! {

/// A timestamp as nanoseconds since the epoch.
pub open spec fn flat(t: Timestamp) -> int {
    t.seconds * 1_000_000_000 + t.nanos
}

/// Four timestamps over a symmetric path give the local clock's error and the one-way delay,
/// both exactly, once what the switches report of their own is taken off either way.
pub proof fn law_exchange_gives_offset_and_delay(sync: SyncSample, delay: DelaySample, m: Measurement, o: int, d: int)
    requires
        call_ensures(measure, (sync, delay), m),
        flat(sync.t2) == flat(sync.t1) + d + sync.correction_nanos + o,
        flat(delay.t4) == flat(delay.t3) + d + delay.correction_nanos - o,
        i64::MIN <= flat(sync.t2) - flat(sync.t1) <= i64::MAX,
        i64::MIN <= flat(delay.t4) - flat(delay.t3) <= i64::MAX,
        i64::MIN <= o <= i64::MAX,
        i64::MIN <= d <= i64::MAX,
    ensures
        m.offset_nanos == o,
        m.delay_nanos == d,
{
}

/// Where the two ways differ, the delay is their mean and the offset half the difference:
/// what is measured adds up to the way out, and their difference to the way back, to within
/// the nanosecond that halving may lose.
pub proof fn law_offset_and_delay_add_up(sync: SyncSample, delay: DelaySample, m: Measurement, out: int, back: int)
    requires
        call_ensures(measure, (sync, delay), m),
        out == flat(sync.t2) - flat(sync.t1) - sync.correction_nanos,
        back == flat(delay.t4) - flat(delay.t3) - delay.correction_nanos,
        -0x2000_0000_0000_0000 <= flat(sync.t2) - flat(sync.t1) <= 0x2000_0000_0000_0000,
        -0x2000_0000_0000_0000 <= flat(delay.t4) - flat(delay.t3) <= 0x2000_0000_0000_0000,
        -0x1000_0000_0000_0000 <= sync.correction_nanos <= 0x1000_0000_0000_0000,
        -0x1000_0000_0000_0000 <= delay.correction_nanos <= 0x1000_0000_0000_0000,
    ensures
        m.offset_nanos + m.delay_nanos == out,
        -1 <= m.delay_nanos - m.offset_nanos - back <= 1,
        out + back >= 0 ==> 2 * m.delay_nanos <= out + back,
        out + back <= 0 ==> 2 * m.delay_nanos >= out + back,
{
}

/// A step moves the local-to-PTP offset by exactly what was measured, from wherever it
/// stood, so that the same clocks measured again read zero.
pub proof fn law_step_takes_out_the_error<S: Sample>(
    before: ServoView<S>,
    offset: int,
    after: ServoView<S>,
    local: int,
    master: int,
)
    requires
        updated(before, offset, after),
        offset == local + before.offset - master,
        i64::MIN < offset < i64::MAX,
        offset > 1_000_000 || offset < -1_000_000,
        i64::MIN <= before.offset - offset <= i64::MAX,
    ensures
        after.offset == before.offset - offset,
        local + after.offset - master == 0,
        after.state == LockState::Locking,
        after.good == 0,
        before.steps < u64::MAX ==> after.steps == before.steps + 1,
{
}

/// In exact arithmetic a step starts the controller over: neither part of it remembers the
/// old timeline.
pub proof fn law_step_forgets<S: Sample>(
    val: spec_fn(S) -> real,
    before: ServoView<S>,
    offset: int,
    after: ServoView<S>,
)
    requires
        exact(val),
        updated(before, offset, after),
        i64::MIN < offset < i64::MAX,
        offset > 1_000_000 || offset < -1_000_000,
    ensures
        val(after.integral) == 0 as real,
        val(after.freq) == 0 as real,
{
}

/// Every measurement is counted and remembered, and only one beyond a millisecond is a step.
pub proof fn law_measurements_are_counted<S: Sample>(before: ServoView<S>, offset: int, after: ServoView<S>)
    requires
        updated(before, offset, after),
    ensures
        before.samples < u64::MAX ==> after.samples == before.samples + 1,
        after.last_offset == offset,
        -1_000_000 <= offset <= 1_000_000 ==> after.steps == before.steps,
{
}

proof fn lemma_shares(o: real)
    by (nonlinear_arith)
    ensures
        o * ((5 as real) / (100 as real)) * (20 as real) == o,
        o * ((3 as real) / (10 as real)) * (10 as real) == o * (3 as real),
{
}

/// In exact arithmetic an offset within a millisecond is slewed: a twentieth of it goes into
/// the integral, which is held within a million; three tenths of it and the integral come off
/// the clock's offset, to within the nanosecond that is cut off; and the rate correction is
/// the integral with its sign turned.
pub proof fn law_small_error_is_slewed<S: Sample>(
    val: spec_fn(S) -> real,
    before: ServoView<S>,
    offset: int,
    after: ServoView<S>,
)
    requires
        exact(val),
        updated(before, offset, after),
        -1_000_000 <= offset <= 1_000_000,
        -0x4000_0000_0000_0000 <= before.offset <= 0x4000_0000_0000_0000,
    ensures
        ({
            let o = offset as real;
            let grown = val(before.integral) + o / (20 as real);
            let moved = (before.offset - after.offset) as real;
            let wanted = o * (3 as real) / (10 as real) + val(after.integral);
            &&& val(after.integral) == (if grown > 1_000_000 as real {
                1_000_000 as real
            } else if grown < -1_000_000 as real {
                -1_000_000 as real
            } else {
                grown
            })
            &&& val(after.freq) == 0 as real - val(after.integral)
            &&& -1 as real <= wanted - moved <= 1 as real
            &&& wanted >= 0 as real ==> 0 as real <= moved <= wanted
            &&& wanted <= 0 as real ==> wanted <= moved <= 0 as real
        }),
{
    let w = choose|w: SlewSteps<S>| #[trigger] slewed_by(before, offset, w, after);
    let ki = choose|u: Ratio<S>| #[trigger] ratio_by(5, 100, u, w.ki);
    let kp = choose|u: Ratio<S>| #[trigger] ratio_by(3, 10, u, w.kp);
    lemma_shares(offset as real);
    assert(val(w.error) == offset as real);
    assert(val(w.ki) == (5 as real) / (100 as real));
    assert(val(w.kp) == (3 as real) / (10 as real));
    assert(val(w.share) == offset as real / (20 as real));
    assert(val(w.proportional) == offset as real * (3 as real) / (10 as real));
}

/// Credit for lock: one for an offset within a tenth of a millisecond, up to sixteen; four off
/// for one beyond; and the servo is locked exactly with a credit of eight or more.
pub proof fn law_credit_decides_the_lock<S: Sample>(before: ServoView<S>, offset: int, after: ServoView<S>)
    requires
        updated(before, offset, after),
        0 <= before.good <= 16,
        -1_000_000 <= offset <= 1_000_000,
    ensures
        -100_000 <= offset <= 100_000 && before.good < 16 ==> after.good == before.good + 1,
        -100_000 <= offset <= 100_000 && before.good == 16 ==> after.good == 16,
        !(-100_000 <= offset <= 100_000) && before.good >= 4 ==> after.good == before.good - 4,
        !(-100_000 <= offset <= 100_000) && before.good < 4 ==> after.good == 0,
        after.good >= 8 ==> after.state == LockState::Locked,
        after.good < 8 ==> after.state == LockState::Locking,
{
}

/// A new servo applies no correction, has seen nothing, and claims no lock.
pub proof fn law_new_servo_corrects_nothing<S: Sample>(val: spec_fn(S) -> real, r: Servo<S>)
    requires
        exact(val),
        call_ensures(Servo::<S>::new, (), r),
    ensures
        r@.offset == 0,
        val(r@.freq) == 0 as real,
        val(r@.integral) == 0 as real,
        r@.good == 0,
        r@.state == LockState::Unlocked,
        r@.samples == 0,
        r@.steps == 0,
{
}

/// The RTP timestamp is PTP time counted in samples: the whole number of samples in the time
/// since the epoch, around the end of 32 bits, at every rate and every instant.
pub proof fn law_timestamp_is_time_in_samples(clock: MediaClock, t: Timestamp, r: u32)
    requires
        call_ensures(MediaClock::rtp_timestamp, (&clock, t), r),
    ensures
        r == ((flat(t) * clock.sample_rate) / 1_000_000_000) % 0x1_0000_0000,
{
    let s = t.seconds as int;
    let rate = clock.sample_rate as int;
    let n = t.nanos * rate;
    assert(flat(t) * rate == n + (s * rate) * 1_000_000_000) by (nonlinear_arith)
        requires
            flat(t) == s * 1_000_000_000 + t.nanos,
            n == t.nanos * rate,
    ;
    vstd::arithmetic::div_mod::lemma_hoist_over_denominator(n, s * rate, 1_000_000_000);
}

/// Between two instants the timestamp moves by the samples in the time between them, and is
/// never off by a whole sample: time that is less than a sample moves it by one at most.
pub proof fn law_timestamps_move_with_time(clock: MediaClock, a: Timestamp, b: Timestamp, x: u32, y: u32)
    requires
        call_ensures(MediaClock::rtp_timestamp, (&clock, a), x),
        call_ensures(MediaClock::rtp_timestamp, (&clock, b), y),
        flat(a) <= flat(b),
        (flat(b) - flat(a)) * clock.sample_rate < 0x7000_0000 * 1_000_000_000,
    ensures
        ({
            let moved = (y - x) % 0x1_0000_0000;
            let elapsed = (flat(b) - flat(a)) * clock.sample_rate;
            &&& (moved - 1) * 1_000_000_000 < elapsed
            &&& elapsed < (moved + 1) * 1_000_000_000
        }),
{
    law_timestamp_is_time_in_samples(clock, a, x);
    law_timestamp_is_time_in_samples(clock, b, y);
    let rate = clock.sample_rate as int;
    let p = flat(a) * rate;
    let q = flat(b) * rate;
    assert((flat(b) - flat(a)) * rate == q - p) by (nonlinear_arith)
        requires
            p == flat(a) * rate,
            q == flat(b) * rate,
    ;
    assert(p <= q) by (nonlinear_arith)
        requires
            p == flat(a) * rate,
            q == flat(b) * rate,
            flat(a) <= flat(b),
            rate >= 0,
    ;
    let i = p / 1_000_000_000;
    let j = q / 1_000_000_000;
    vstd::arithmetic::div_mod::lemma_sub_mod_noop(j, i, 0x1_0000_0000);
    vstd::arithmetic::div_mod::lemma_small_mod((j - i) as nat, 0x1_0000_0000);
}

/// Whether `n` is the whole number nearest to `x`, halves upwards.
pub open spec fn nearest(x: real, n: int) -> bool {
    n as real <= x + (1 as real) / (2 as real) && x + (1 as real) / (2 as real) < (n + 1) as real
}

/// Whether, under `val`, rounding gives the nearest whole number.
pub open spec fn rounds<S: Sample>(val: spec_fn(S) -> real) -> bool {
    forall|a: S, r: S| #[trigger]
        rounded_is(a, r) && val(a) >= 0 as real ==> exists|n: int| #[trigger] nearest(val(a), n) && val(r) == n as real
}

/// Whether `n` is the whole number of samples nearest to this many milliseconds at the rate.
pub open spec fn fills<S: Sample>(val: spec_fn(S) -> real, rate: u32, ptime_ms: S, n: int) -> bool {
    let samples = rate as real * val(ptime_ms) / (1000 as real);
    &&& n as real <= samples + (1 as real) / (2 as real)
    &&& samples < n as real + (1 as real) / (2 as real)
}

pub proof fn lemma_geometry<S: Sample>(val: spec_fn(S) -> real, rate: u32, ptime_ms: S, r: usize)
    requires
        exact(val),
        rounds(val),
        geometry_is(rate, ptime_ms, r),
        0 as real <= val(ptime_ms) <= 1_000_000 as real,
        rate <= 1_000_000,
    ensures
        fills(val, rate, ptime_ms, r as int),
{
    let w = choose|w: GeometrySteps<S>| #[trigger] geometry_by(rate, ptime_ms, w, r);
    let x = rate as real;
    let p = val(ptime_ms);
    assert(0 as real <= x * p <= 1_000_000_000_000 as real) by (nonlinear_arith)
        requires
            0 as real <= x <= 1_000_000 as real,
            0 as real <= p <= 1_000_000 as real,
    ;
    assert(val(w.exact) == x * p / (1000 as real));
    let n = choose|n: int| #[trigger] nearest(val(w.exact), n) && val(w.nearest) == n as real;
    assert(w.whole == n);
}

/// In exact arithmetic a packet holds the whole number of samples nearest to its length: as
/// many as there are in that many thousandths of a second at the rate.
pub proof fn law_packet_holds_its_time<S: Sample>(
    val: spec_fn(S) -> real,
    rate: u32,
    ptime_ms: S,
    r: usize,
    clock: MediaClock,
    n: usize,
)
    requires
        exact(val),
        rounds(val),
        call_ensures(packet_samples::<S>, (rate, ptime_ms), r),
        call_ensures(MediaClock::samples_per_ptime::<S>, (&clock, ptime_ms), n),
        0 as real <= val(ptime_ms) <= 1_000_000 as real,
        rate <= 1_000_000,
        clock.sample_rate <= 1_000_000,
    ensures
        fills(val, rate, ptime_ms, r as int),
        fills(val, clock.sample_rate, ptime_ms, n as int),
{
    lemma_geometry(val, rate, ptime_ms, r);
    lemma_geometry(val, clock.sample_rate, ptime_ms, n);
}

/// What a servo reports is what it holds.
pub proof fn law_servo_reports_what_it_holds<S: Sample>(
    s: Servo<S>,
    state: LockState,
    last: i64,
    freq: S,
    samples: u64,
    steps: u64,
    offset: i64,
)
    requires
        call_ensures(Servo::<S>::state, (&s,), state),
        call_ensures(Servo::<S>::last_offset_nanos, (&s,), last),
        call_ensures(Servo::<S>::freq_ppb, (&s,), freq),
        call_ensures(Servo::<S>::samples, (&s,), samples),
        call_ensures(Servo::<S>::steps, (&s,), steps),
        call_ensures(Servo::<S>::local_to_ptp_offset, (&s,), offset),
    ensures
        state == s@.state,
        last == s@.last_offset,
        freq == s@.freq,
        samples == s@.samples,
        steps == s@.steps,
        offset == s@.offset,
{
}

} // verus!
