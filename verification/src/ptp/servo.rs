//! Offset and delay measurement, the clock servo, and the media clock it disciplines.
//!
//! The system clock is left alone. The servo keeps a mapping from the local monotonic
//! clock to PTP time, and RTP timestamps are derived through it.
//!
//! The offset calculation assumes that the path is symmetric. Any asymmetry lands in the
//! offset, at half its size.

use vstd::prelude::*;

use crate::ptp::message::{saturated, Timestamp};
use crate::sample::{
    exact, exceeds_is, negated_is, product_is, quotient_is, ratio, ratio_is, rounded_is, size, sum_is,
    truncated_is, whole_is, Sample,
};

verus! {

/// A matched Sync (with its Follow_Up, if two-step) and the local time it arrived.
#[derive(Clone, Copy, Debug, PartialEq, Eq, Structural)]
pub struct SyncSample {
    /// Master's transmit time.
    pub t1: Timestamp,
    /// Local receive time.
    pub t2: Timestamp,
    /// Correction field accumulated by transparent clocks, in nanoseconds.
    pub correction_nanos: i64,
}

/// A Delay_Req we sent and the Delay_Resp that came back.
#[derive(Clone, Copy, Debug, PartialEq, Eq, Structural)]
pub struct DelaySample {
    /// Local transmit time of the Delay_Req.
    pub t3: Timestamp,
    /// Master's receive time, from the Delay_Resp.
    pub t4: Timestamp,
    pub correction_nanos: i64,
}

/// The result of combining a Sync and a Delay exchange.
#[derive(Clone, Copy, Debug, PartialEq, Eq, Structural)]
pub struct Measurement {
    /// How far the local clock is ahead of the master, in nanoseconds.
    pub offset_nanos: i64,
    /// Estimated one-way delay, in nanoseconds.
    pub delay_nanos: i64,
}

/// How long a Sync took, by the clocks of both ends.
pub open spec fn outbound(sync: SyncSample) -> int {
    saturated(sync.t2.total_nanos() - sync.t1.total_nanos()) - sync.correction_nanos
}

/// How long a Delay_Req took, by the clocks of both ends.
pub open spec fn inbound(delay: DelaySample) -> int {
    saturated(delay.t4.total_nanos() - delay.t3.total_nanos()) - delay.correction_nanos
}

/// Half, towards zero.
pub open spec fn half(v: int) -> int {
    if v >= 0 {
        v / 2
    } else {
        -((-v) / 2)
    }
}

/// Compute offset and mean path delay from the four timestamps: the delay is the mean of
/// both ways, the offset what the way out took beyond it.
pub fn measure(sync: SyncSample, delay: DelaySample) -> (m: Measurement)
    ensures
        m.delay_nanos == saturated(half(outbound(sync) + inbound(delay))),
        m.offset_nanos == saturated(outbound(sync) - half(outbound(sync) + inbound(delay))),
{
    let out: i128 = sync.t2.diff_nanos(sync.t1) as i128 - sync.correction_nanos as i128;
    let back: i128 = delay.t4.diff_nanos(delay.t3) as i128 - delay.correction_nanos as i128;
    let sum: i128 = out + back;
    let mean: i128 = if sum >= 0 {
        sum / 2
    } else {
        -((-sum) / 2)
    };
    Measurement { offset_nanos: clamped(out - mean), delay_nanos: clamped(mean) }
}

/// The nearest number that fits.
fn clamped(v: i128) -> (r: i64)
    ensures
        r == saturated(v as int),
{
    if v < i64::MIN as i128 {
        i64::MIN
    } else if v > i64::MAX as i128 {
        i64::MAX
    } else {
        v as i64
    }
}

/// On a symmetric path with one-way delay `d` and a local clock ahead by `o`, the
/// measurement is exactly that.
pub proof fn law_symmetric_path_is_exact(o: int, d: int, out: int, back: int)
    requires
        out == d + o,
        back == d - o,
    ensures
        half(out + back) == d,
        out - half(out + back) == o,
{
}

/// With clocks in agreement, an asymmetric path reads as an offset of half the asymmetry.
pub proof fn law_asymmetry_lands_halved(there: int, back: int)
    requires
        (there - back) % 2 == 0,
        there + back >= 0,
    ensures
        there - half(there + back) == (there - back) / 2,
{
}

/// How well locked the servo is.
#[derive(Clone, Copy, Debug, PartialEq, Eq, Structural)]
pub enum LockState {
    /// No usable measurements yet.
    Unlocked,
    /// Following, but the offset is still outside the locked threshold.
    Locking,
    /// Offset has stayed within threshold for long enough to trust.
    Locked,
}

/// Offsets above this are stepped, not slewed.
pub const STEP_THRESHOLD_NANOS: i64 = 1_000_000;

/// Offsets within this count towards lock.
pub const LOCK_THRESHOLD_NANOS: i64 = 100_000;

/// How many good samples make a lock.
pub const REQUIRED_GOOD: u32 = 8;

/// How far the count of good samples may run.
pub const MOST_GOOD: u32 = 16;

/// What a bad sample costs.
pub const BAD_SAMPLE_COST: u32 = 4;

/// The bound of the integral.
pub const INTEGRAL_LIMIT: i64 = 1_000_000;

/// A PI controller disciplining the local-to-PTP mapping.
pub struct Servo<S> {
    offset_nanos: i64,
    freq_ppb: S,
    integral: S,
    good_samples: u32,
    state: LockState,
    last_offset: i64,
    samples: u64,
    steps: u64,
}

/// The servo as a mathematical value.
pub struct ServoView<S> {
    /// Local-to-PTP offset in nanoseconds.
    pub offset: int,
    /// Rate correction in parts per billion.
    pub freq: S,
    pub integral: S,
    pub good: int,
    pub state: LockState,
    /// The most recent measured offset.
    pub last_offset: int,
    pub samples: u64,
    pub steps: u64,
}

impl<S: Sample> View for Servo<S> {
    type V = ServoView<S>;

    closed spec fn view(&self) -> ServoView<S> {
        ServoView {
            offset: self.offset_nanos as int,
            freq: self.freq_ppb,
            integral: self.integral,
            good: self.good_samples as int,
            state: self.state,
            last_offset: self.last_offset as int,
            samples: self.samples,
            steps: self.steps,
        }
    }
}

impl<S> ServoView<S> {
    /// The count of good samples and the state go together.
    pub open spec fn well_formed(self) -> bool {
        &&& 0 <= self.good <= MOST_GOOD
        &&& (self.state == LockState::Locked <==> self.good >= REQUIRED_GOOD)
    }
}

/// A servo that has seen nothing.
pub open spec fn servo_fresh<S: Sample>(v: ServoView<S>) -> bool {
    &&& v.offset == 0
    &&& whole_is(0, v.freq)
    &&& whole_is(0, v.integral)
    &&& v.good == 0
    &&& v.state == LockState::Unlocked
    &&& v.last_offset == 0
    &&& v.samples == 0
    &&& v.steps == 0
}

pub open spec fn distance(v: int) -> int {
    if v < 0 {
        -v
    } else {
        v
    }
}

/// One more, around the end of the counter.
pub open spec fn counted(n: u64) -> u64 {
    if n == u64::MAX {
        0
    } else {
        (n + 1) as u64
    }
}

/// A large offset is taken out at once, and the controller starts over.
pub open spec fn stepped<S: Sample>(before: ServoView<S>, offset: int, after: ServoView<S>) -> bool {
    &&& after.offset == saturated(before.offset - offset)
    &&& whole_is(0, after.integral)
    &&& whole_is(0, after.freq)
    &&& after.good == 0
    &&& after.state == LockState::Locking
    &&& after.steps == counted(before.steps)
}

/// The steps of slewing.
pub struct SlewSteps<S> {
    pub error: S,
    pub ki: S,
    pub share: S,
    pub grown: S,
    pub lowest: S,
    pub below: bool,
    pub highest: S,
    pub above: bool,
    pub kp: S,
    pub proportional: S,
    pub correction: S,
    pub nanos: i128,
}

pub open spec fn slewed_by<S: Sample>(before: ServoView<S>, offset: int, w: SlewSteps<S>, after: ServoView<S>) -> bool {
    &&& whole_is(offset, w.error)
    &&& ratio_is(5, 100, w.ki)
    &&& product_is(w.error, w.ki, w.share)
    &&& sum_is(before.integral, w.share, w.grown)
    &&& whole_is(-INTEGRAL_LIMIT, w.lowest)
    &&& whole_is(INTEGRAL_LIMIT as int, w.highest)
    &&& exceeds_is(w.lowest, w.grown, w.below)
    &&& exceeds_is(w.grown, w.highest, w.above)
    &&& after.integral == (if w.below {
        w.lowest
    } else if w.above {
        w.highest
    } else {
        w.grown
    })
    &&& ratio_is(3, 10, w.kp)
    &&& product_is(w.error, w.kp, w.proportional)
    &&& sum_is(w.proportional, after.integral, w.correction)
    &&& truncated_is(w.correction, w.nanos)
    &&& after.offset == saturated(before.offset - saturated(w.nanos as int))
    &&& negated_is(after.integral, after.freq)
}

/// The count of good samples after one: credited one by one, debited several at a time.
pub open spec fn good_after(good: int, offset: int) -> int {
    if distance(offset) <= LOCK_THRESHOLD_NANOS {
        if good + 1 < MOST_GOOD {
            good + 1
        } else {
            MOST_GOOD as int
        }
    } else if good < BAD_SAMPLE_COST {
        0
    } else {
        good - BAD_SAMPLE_COST
    }
}

/// A small offset is slewed by a proportional and a bounded integral part, and counts
/// towards or against lock.
pub open spec fn slewed<S: Sample>(before: ServoView<S>, offset: int, after: ServoView<S>) -> bool {
    &&& exists|w: SlewSteps<S>| #[trigger] slewed_by(before, offset, w, after)
    &&& after.good == good_after(before.good, offset)
    &&& after.state == (if after.good >= REQUIRED_GOOD {
        LockState::Locked
    } else {
        LockState::Locking
    })
    &&& after.steps == before.steps
}

/// Whether an offset is a saturated reading, of which nothing is to be believed.
pub open spec fn nonsense(offset: int) -> bool {
    offset == i64::MAX || offset == i64::MIN
}

/// What a measurement does to the servo. A saturated reading is noted and rejected.
pub open spec fn updated<S: Sample>(before: ServoView<S>, offset: int, after: ServoView<S>) -> bool {
    &&& after.samples == counted(before.samples)
    &&& after.last_offset == offset
    &&& if nonsense(offset) {
        after == (ServoView { samples: after.samples, last_offset: after.last_offset, ..before })
    } else if distance(offset) > STEP_THRESHOLD_NANOS {
        stepped(before, offset, after)
    } else {
        slewed(before, offset, after)
    }
}

impl<S: Sample> Servo<S> {
    pub open spec fn wf(&self) -> bool {
        self@.well_formed()
    }

    pub fn new() -> (r: Self)
        ensures
            r.wf(),
            servo_fresh(r@),
    {
        Servo {
            offset_nanos: 0,
            freq_ppb: S::whole(0),
            integral: S::whole(0),
            good_samples: 0,
            state: LockState::Unlocked,
            last_offset: 0,
            samples: 0,
            steps: 0,
        }
    }

    pub fn state(&self) -> (r: LockState)
        ensures
            r == self@.state,
    {
        self.state
    }

    /// The most recent measured offset.
    pub fn last_offset_nanos(&self) -> (r: i64)
        ensures
            r == self@.last_offset,
    {
        self.last_offset
    }

    pub fn freq_ppb(&self) -> (r: S)
        ensures
            r == self@.freq,
    {
        self.freq_ppb
    }

    pub fn samples(&self) -> (r: u64)
        ensures
            r == self@.samples,
    {
        self.samples
    }

    pub fn steps(&self) -> (r: u64)
        ensures
            r == self@.steps,
    {
        self.steps
    }

    /// Current local-to-PTP offset in nanoseconds.
    pub fn local_to_ptp_offset(&self) -> (r: i64)
        ensures
            r == self@.offset,
    {
        self.offset_nanos
    }

    /// Feed a measurement. Returns the resulting lock state. A saturated offset comes of a
    /// timestamp that is nonsense, and moves nothing.
    pub fn update(&mut self, m: Measurement) -> (r: LockState)
        requires
            old(self).wf(),
        ensures
            final(self).wf(),
            updated(old(self)@, m.offset_nanos as int, final(self)@),
            r == final(self)@.state,
    {
        let ghost before = self@;
        let offset: i64 = m.offset_nanos;
        self.samples = self.samples.wrapping_add(1);
        self.last_offset = offset;
        if offset == i64::MAX || offset == i64::MIN {
            return self.state;
        }
        if offset > STEP_THRESHOLD_NANOS || offset < -STEP_THRESHOLD_NANOS {
            self.offset_nanos = clamped(self.offset_nanos as i128 - offset as i128);
            self.integral = S::whole(0);
            self.freq_ppb = S::whole(0);
            self.good_samples = 0;
            self.steps = self.steps.wrapping_add(1);
            self.state = LockState::Locking;
            return self.state;
        }
        let error = S::whole(offset);
        let ki = ratio::<S>(5, 100);
        let share = error.times(ki);
        let grown = self.integral.plus(share);
        let lowest = S::whole(-INTEGRAL_LIMIT);
        let highest = S::whole(INTEGRAL_LIMIT);
        let below = lowest.exceeds(grown);
        let above = grown.exceeds(highest);
        self.integral = if below {
            lowest
        } else if above {
            highest
        } else {
            grown
        };
        let kp = ratio::<S>(3, 10);
        let proportional = error.times(kp);
        let correction = proportional.plus(self.integral);
        let nanos: i128 = correction.truncated();
        self.offset_nanos = clamped(self.offset_nanos as i128 - clamped(nanos) as i128);
        self.freq_ppb = self.integral.negated();
        if offset <= LOCK_THRESHOLD_NANOS && offset >= -LOCK_THRESHOLD_NANOS {
            self.good_samples = if self.good_samples + 1 < MOST_GOOD {
                self.good_samples + 1
            } else {
                MOST_GOOD
            };
        } else {
            self.good_samples = self.good_samples.saturating_sub(BAD_SAMPLE_COST);
        }
        self.state = if self.good_samples >= REQUIRED_GOOD {
            LockState::Locked
        } else {
            LockState::Locking
        };
        proof {
            let w = SlewSteps {
                error,
                ki,
                share,
                grown,
                lowest,
                below,
                highest,
                above,
                kp,
                proportional,
                correction,
                nanos,
            };
            assert(slewed_by(before, offset as int, w, self@));
        }
        self.state
    }
}

/// A servo with full credit keeps its lock through a single outlier.
pub proof fn law_one_outlier_keeps_lock<S: Sample>(before: ServoView<S>, offset: int, after: ServoView<S>)
    requires
        before.good == MOST_GOOD,
        distance(offset) <= STEP_THRESHOLD_NANOS,
        updated(before, offset, after),
    ensures
        after.state == LockState::Locked,
{
}

/// Good samples in a row make a lock, however the servo stood.
pub proof fn law_good_samples_lock<S: Sample>(states: Seq<ServoView<S>>, offsets: Seq<int>, n: int)
    requires
        n == REQUIRED_GOOD,
        states.len() == n + 1,
        offsets.len() == n,
        states[0].well_formed(),
        forall|i: int|
            #![trigger offsets[i]]
            0 <= i < n ==> distance(offsets[i]) <= LOCK_THRESHOLD_NANOS && updated(
                states[i],
                offsets[i],
                states[i + 1],
            ),
    ensures
        states[n].state == LockState::Locked,
{
    lemma_good_run(states, offsets, n);
    let last = offsets[n - 1];
}

proof fn lemma_good_run<S: Sample>(states: Seq<ServoView<S>>, offsets: Seq<int>, n: int)
    requires
        0 <= n <= offsets.len(),
        states.len() == offsets.len() + 1,
        states[0].well_formed(),
        n <= MOST_GOOD,
        forall|i: int|
            #![trigger offsets[i]]
            0 <= i < n ==> distance(offsets[i]) <= LOCK_THRESHOLD_NANOS && updated(
                states[i],
                offsets[i],
                states[i + 1],
            ),
    ensures
        n <= states[n].good <= MOST_GOOD,
    decreases n,
{
    if n > 0 {
        lemma_good_run(states, offsets, n - 1);
        let last = offsets[n - 1];
    }
}

/// Bad samples in a row lose the lock, however much credit the servo had.
pub proof fn law_bad_samples_unlock<S: Sample>(
    a: ServoView<S>,
    b: ServoView<S>,
    c: ServoView<S>,
    d: ServoView<S>,
    x: int,
    y: int,
    z: int,
)
    requires
        a.well_formed(),
        distance(x) > LOCK_THRESHOLD_NANOS,
        distance(y) > LOCK_THRESHOLD_NANOS,
        distance(z) > LOCK_THRESHOLD_NANOS,
        !nonsense(x) && !nonsense(y) && !nonsense(z),
        updated(a, x, b),
        updated(b, y, c),
        updated(c, z, d),
    ensures
        d.state == LockState::Locking,
{
}

/// Whether the integral, and the rate that follows it, are bounded.
pub open spec fn bounded<S: Sample>(val: spec_fn(S) -> real, v: ServoView<S>) -> bool {
    size(val(v.integral)) <= INTEGRAL_LIMIT as real && size(val(v.freq)) <= INTEGRAL_LIMIT as real
}

/// In exact arithmetic a new servo's integral is bounded.
pub proof fn law_integral_starts_bounded<S: Sample>(val: spec_fn(S) -> real, v: ServoView<S>)
    requires
        exact(val),
        servo_fresh(v),
    ensures
        bounded(val, v),
{
}

/// In exact arithmetic the integral stays bounded, so that an outage does not wind it up.
pub proof fn law_integral_bounded<S: Sample>(
    val: spec_fn(S) -> real,
    before: ServoView<S>,
    offset: int,
    after: ServoView<S>,
)
    requires
        exact(val),
        bounded(val, before),
        updated(before, offset, after),
        i64::MIN <= offset <= i64::MAX,
    ensures
        bounded(val, after),
{
    if !nonsense(offset) && distance(offset) <= STEP_THRESHOLD_NANOS {
        let w = choose|w: SlewSteps<S>| #[trigger] slewed_by(before, offset, w, after);
    }
}

/// A saturated reading moves neither the clock nor the lock.
pub proof fn law_saturated_reading_is_rejected<S: Sample>(before: ServoView<S>, offset: int, after: ServoView<S>)
    requires
        updated(before, offset, after),
        nonsense(offset),
    ensures
        after.offset == before.offset,
        after.integral == before.integral,
        after.freq == before.freq,
        after.good == before.good,
        after.steps == before.steps,
        after.state == before.state,
{
}

/// Turns PTP time into RTP timestamps: the timestamp is PTP time counted in samples.
#[derive(Clone, Copy, Debug)]
pub struct MediaClock {
    pub sample_rate: u32,
}

/// Samples since the epoch.
pub open spec fn samples_at(rate: u32, t: Timestamp) -> int {
    t.seconds * rate + (t.nanos * rate) / 1_000_000_000
}

/// The steps to a packet's samples.
pub struct GeometrySteps<S> {
    pub rate: S,
    pub scaled: S,
    pub thousand: S,
    pub exact: S,
    pub nearest: S,
    pub whole: i128,
}

pub open spec fn geometry_by<S: Sample>(rate: u32, ptime_ms: S, w: GeometrySteps<S>, r: usize) -> bool {
    &&& whole_is(rate as int, w.rate)
    &&& product_is(w.rate, ptime_ms, w.scaled)
    &&& whole_is(1000, w.thousand)
    &&& quotient_is(w.scaled, w.thousand, w.exact)
    &&& rounded_is(w.exact, w.nearest)
    &&& truncated_is(w.nearest, w.whole)
    &&& r == (if w.whole < 0 {
        0
    } else if w.whole > usize::MAX {
        usize::MAX as int
    } else {
        w.whole as int
    })
}

/// `r` is the nearest whole number of samples in the packet time.
pub open spec fn geometry_is<S: Sample>(rate: u32, ptime_ms: S, r: usize) -> bool {
    exists|w: GeometrySteps<S>| #[trigger] geometry_by(rate, ptime_ms, w, r)
}

/// Samples per packet for a packet time in milliseconds.
pub fn packet_samples<S: Sample>(sample_rate: u32, ptime_ms: S) -> (r: usize)
    ensures
        geometry_is(sample_rate, ptime_ms, r),
{
    let rate = S::whole(sample_rate as i64);
    let scaled = rate.times(ptime_ms);
    let thousand = S::whole(1000);
    let exact = scaled.over(thousand);
    let nearest = exact.rounded();
    let whole: i128 = nearest.truncated();
    let r: usize = if whole < 0 {
        0
    } else if whole > usize::MAX as i128 {
        usize::MAX
    } else {
        whole as usize
    };
    assert(geometry_by(
        sample_rate,
        ptime_ms,
        GeometrySteps { rate, scaled, thousand, exact, nearest, whole },
        r,
    ));
    r
}

impl MediaClock {
    pub fn new(sample_rate: u32) -> (r: Self)
        ensures
            r.sample_rate == sample_rate,
    {
        MediaClock { sample_rate }
    }

    /// RTP timestamp for a PTP instant.
    pub fn rtp_timestamp(&self, ptp: Timestamp) -> (r: u32)
        ensures
            r == samples_at(self.sample_rate, ptp) % 0x1_0000_0000,
    {
        let rate: u64 = self.sample_rate as u64;
        let from_seconds: u64 = ptp.seconds.wrapping_mul(rate);
        proof {
            assert(ptp.nanos * rate <= u32::MAX * u32::MAX) by (nonlinear_arith)
                requires
                    0 <= ptp.nanos <= u32::MAX,
                    0 <= rate <= u32::MAX,
            ;
        }
        let from_nanos: u64 = (ptp.nanos as u64 * rate) / 1_000_000_000;
        let total: u64 = from_seconds.wrapping_add(from_nanos);
        proof {
            let s = ptp.seconds as int;
            let n = from_nanos as int;
            let big = 0x1_0000_0000_0000_0000int;
            let small = 0x1_0000_0000int;
            assert(from_seconds == (s * rate) % big);
            assert(total == (from_seconds + n) % big);
            assert(total == (s * rate + n) % big) by {
                vstd::arithmetic::div_mod::lemma_add_mod_noop(s * rate, n, big);
                vstd::arithmetic::div_mod::lemma_small_mod(n as nat, big as nat);
            }
            assert((total as int) % small == (s * rate + n) % small) by {
                vstd::arithmetic::div_mod::lemma_mod_mod(s * rate + n, small, small);
            }
            assert((total as u32) == total % 0x1_0000_0000) by (bit_vector);
        }
        total as u32
    }

    /// Samples per packet for a packet time in milliseconds.
    pub fn samples_per_ptime<S: Sample>(&self, ptime_ms: S) -> (r: usize)
        ensures
            geometry_is(self.sample_rate, ptime_ms, r),
    {
        packet_samples(self.sample_rate, ptime_ms)
    }
}

/// A second later is exactly one rate of samples later, across the wrap.
pub proof fn law_seconds_are_rates_apart(rate: u32, t: Timestamp)
    requires
        t.seconds < u64::MAX,
    ensures
        (samples_at(rate, Timestamp { seconds: (t.seconds + 1) as u64, nanos: t.nanos }) - samples_at(rate, t))
            == rate,
{
    assert((t.seconds + 1) * rate == t.seconds * rate + rate) by (nonlinear_arith);
}

} // verus!
