//! Deriving RTP timestamps and the audio loop's cadence from PTP.
//!
//! Stamping packets from PTP while pacing the loop off a local crystal lets the timestamps
//! run away from the time they claim, at about a sample per second. Pacing from PTP removes
//! the accumulation at the source.
//!
//! The pacers decide; the program around them reads the clocks, sleeps and spins. All times
//! are nanoseconds.

use vstd::prelude::*;

use crate::ptp::message::Timestamp;
use crate::ptp::servo::{counted, distance, samples_at, MediaClock};
use crate::rtp::jitter::{timestamp_after, timestamp_gap, ts_diff};

verus! {

/// Produces the RTP timestamp for each block.
pub struct MediaTimeline {
    clock: MediaClock,
    block: u32,
    current: u32,
    started: bool,
    max_drift_samples: u32,
    realignments: u64,
}

/// The timeline as a mathematical value.
pub struct TimelineView {
    pub rate: u32,
    pub block: u32,
    /// The timestamp of the block last sent.
    pub current: u32,
    pub started: bool,
    /// How far the counter may wander from PTP before it is snapped back.
    pub max_drift: u32,
    pub realignments: u64,
}

impl View for MediaTimeline {
    type V = TimelineView;

    closed spec fn view(&self) -> TimelineView {
        TimelineView {
            rate: self.clock.sample_rate,
            block: self.block,
            current: self.current,
            started: self.started,
            max_drift: self.max_drift_samples,
            realignments: self.realignments,
        }
    }
}

/// The media clock at a PTP instant.
pub open spec fn derived(v: TimelineView, ptp: Timestamp) -> u32 {
    (samples_at(v.rate, ptp) % 0x1_0000_0000) as u32
}

/// The timestamp one block on.
pub open spec fn one_block_on(v: TimelineView) -> u32 {
    timestamp_after(v.current as int, v.block as int) as u32
}

/// Whether one block on is too far from PTP time.
pub open spec fn strayed(v: TimelineView, ptp: Timestamp) -> bool {
    distance(timestamp_gap(one_block_on(v) as int, derived(v, ptp) as int)) > v.max_drift
}

/// The timeline at the next block.
pub open spec fn ticked(v: TimelineView, ptp: Option<Timestamp>, stepped: bool) -> TimelineView {
    match ptp {
        None => if v.started {
            TimelineView { current: one_block_on(v), ..v }
        } else {
            TimelineView { started: true, ..v }
        },
        Some(t) => if !v.started || stepped {
            TimelineView { current: derived(v, t), started: true, ..v }
        } else if strayed(v, t) {
            TimelineView { current: derived(v, t), realignments: counted(v.realignments), ..v }
        } else {
            TimelineView { current: one_block_on(v), ..v }
        },
    }
}

impl MediaTimeline {
    /// Snapping the timeline is a discontinuity that receivers take for a restart, so the
    /// bound is a quarter of a second: ordinary corrections are the pacer's to absorb.
    pub fn new(sample_rate: u32, block: u32) -> (r: Self)
        ensures
            r@ == (TimelineView {
                rate: sample_rate,
                block,
                current: 0,
                started: false,
                max_drift: sample_rate / 4,
                realignments: 0,
            }),
    {
        MediaTimeline {
            clock: MediaClock::new(sample_rate),
            block,
            current: 0,
            started: false,
            max_drift_samples: sample_rate / 4,
            realignments: 0,
        }
    }

    pub fn realignments(&self) -> (r: u64)
        ensures
            r == self@.realignments,
    {
        self.realignments
    }

    /// The timestamp for the block about to be sent.
    ///
    /// Advances by exactly one block per call, so that packet spacing is uniform. `ptp`
    /// anchors it; without it the counter runs free. `stepped` says that the clock has just
    /// jumped, which is the one moment a discontinuity is correct.
    pub fn next(&mut self, ptp: Option<Timestamp>, stepped: bool) -> (r: u32)
        ensures
            final(self)@ == ticked(old(self)@, ptp, stepped),
            r == final(self)@.current,
    {
        let t = match ptp {
            None => {
                if self.started {
                    self.current = self.current.wrapping_add(self.block);
                } else {
                    self.started = true;
                }
                return self.current;
            },
            Some(t) => t,
        };
        let derived: u32 = self.clock.rtp_timestamp(t);
        if !self.started || stepped {
            self.current = derived;
            self.started = true;
            return self.current;
        }
        self.current = self.current.wrapping_add(self.block);
        let drift: i64 = ts_diff(self.current, derived);
        let far: i64 = if drift < 0 {
            -drift
        } else {
            drift
        };
        if far > self.max_drift_samples as i64 {
            self.current = derived;
            self.realignments = self.realignments.wrapping_add(1);
        }
        self.current
    }
}

/// Spacing is uniform unless the clock has just stepped or the counter has strayed.
pub proof fn law_spacing_is_uniform(v: TimelineView, ptp: Option<Timestamp>, stepped: bool)
    requires
        v.started,
        ptp is Some ==> !stepped && !strayed(v, ptp->0),
    ensures
        ticked(v, ptp, stepped).current == one_block_on(v),
        ticked(v, ptp, stepped).realignments == v.realignments,
{
}

/// With PTP the timestamp is never further from the media clock than the bound.
pub proof fn law_timestamps_stay_near_ptp(v: TimelineView, t: Timestamp, stepped: bool)
    ensures
        distance(timestamp_gap(ticked(v, Some(t), stepped).current as int, derived(v, t) as int)) <= v.max_drift,
{
    crate::bytes::lemma_radix_values();
}

/// A step, and the first sample, put the timeline on the media clock exactly.
pub proof fn law_step_lands_on_the_media_clock(v: TimelineView, t: Timestamp, stepped: bool)
    requires
        !v.started || stepped,
    ensures
        ticked(v, Some(t), stepped).current == derived(v, t),
        ticked(v, Some(t), stepped).realignments == v.realignments,
{
}

/// Without PTP the timeline runs free: after `n` blocks it is `n` blocks on.
pub open spec fn free_run(v: TimelineView, n: nat) -> TimelineView
    decreases n,
{
    if n == 0 {
        v
    } else {
        ticked(free_run(v, (n - 1) as nat), None, false)
    }
}

/// Without PTP the timeline free-runs at exactly one block a tick.
pub proof fn law_free_run_is_exact(v: TimelineView, n: nat)
    requires
        v.started,
    ensures
        free_run(v, n).current == timestamp_after(v.current as int, n * v.block),
        free_run(v, n) == (TimelineView { current: free_run(v, n).current, ..v }),
    decreases n,
{
    if n == 0 {
        assert(0 * v.block == 0);
    } else {
        let m = (n - 1) as nat;
        law_free_run_is_exact(v, m);
        crate::rtp::jitter::lemma_after_twice(v.current as int, m * v.block, v.block as int);
        assert(m * v.block + v.block == n * v.block) by (nonlinear_arith)
            requires
                n == m + 1,
        ;
    }
}

/// How long before the deadline to stop sleeping and spin: sleeping overshoots a
/// millisecond period by a large and variable fraction.
pub const SPIN_MARGIN_NANOS: u64 = 400_000;

/// A deadline further off than this belongs to another timeline.
pub const FURTHEST_NANOS: u128 = 1_000_000_000;

/// What to do until the next tick.
#[derive(Clone, Copy, Debug, PartialEq, Eq, Structural)]
pub enum Wait {
    /// The deadline had already passed: tick at once.
    Missed,
    /// Sleep this long and then, where asked to, spin until the deadline.
    Until { sleep_nanos: u64, deadline: u128, spin: bool },
}

/// How to wait out what remains before a deadline.
pub open spec fn waiting(remaining: int, deadline: u128, spin: bool) -> Wait {
    let margin: int = if spin {
        SPIN_MARGIN_NANOS as int
    } else {
        0
    };
    Wait::Until {
        sleep_nanos: if remaining - margin > u64::MAX {
            u64::MAX
        } else if remaining > margin {
            (remaining - margin) as u64
        } else {
            0
        },
        deadline,
        spin,
    }
}

fn wait_out(remaining: u128, deadline: u128, spin: bool) -> (r: Wait)
    ensures
        r == waiting(remaining as int, deadline, spin),
{
    let margin: u128 = if spin {
        SPIN_MARGIN_NANOS as u128
    } else {
        0
    };
    let sleep_nanos: u64 = if remaining <= margin {
        0
    } else if remaining - margin > u64::MAX as u128 {
        u64::MAX
    } else {
        (remaining - margin) as u64
    };
    Wait::Until { sleep_nanos, deadline, spin }
}

/// Paces a loop off a fixed schedule of the local clock.
#[derive(Clone, Copy, Debug, PartialEq, Eq, Structural)]
pub struct Pacer {
    pub period_nanos: u64,
    /// The last deadline.
    pub next: u128,
    pub spin: bool,
}

/// The schedule after a wait that begins now, and how to wait.
pub open spec fn paced(p: Pacer, now: u128) -> (Pacer, Wait) {
    let due = p.next + p.period_nanos;
    if due <= now {
        (Pacer { next: now, ..p }, Wait::Missed)
    } else {
        (Pacer { next: due as u128, ..p }, waiting(due - now, due as u128, p.spin))
    }
}

impl Pacer {
    /// Whether the next deadline can be counted.
    pub open spec fn fits(self) -> bool {
        self.next + self.period_nanos <= u128::MAX
    }

    pub fn new(period_nanos: u64, now: u128, spin: bool) -> (r: Self)
        ensures
            r == (Pacer { period_nanos, next: now, spin }),
    {
        Pacer { period_nanos, next: now, spin }
    }

    /// How to wait for the next deadline.
    ///
    /// Lost time is given up: sprinting to catch up turns one late tick into a burst, which
    /// is worse for every receiver than the single gap.
    pub fn plan(&mut self, now: u128) -> (r: Wait)
        requires
            old(self).fits(),
        ensures
            (*final(self), r) == paced(*old(self), now),
    {
        let due: u128 = self.next + self.period_nanos as u128;
        if due <= now {
            self.next = now;
            return Wait::Missed;
        }
        self.next = due;
        wait_out(due - now, due, self.spin)
    }
}

/// A missed deadline starts the schedule anew from now, so that one late tick is followed
/// by a whole period and not by a burst.
pub proof fn law_lost_time_is_given_up(p: Pacer, now: u128, later: u128)
    requires
        paced(p, now).1 == Wait::Missed,
        now <= later,
        later < now + p.period_nanos,
        now + p.period_nanos <= u128::MAX,
    ensures
        paced(paced(p, now).0, later).1 matches Wait::Until { deadline, .. } && deadline == now + p.period_nanos,
{
}

/// Paces the audio loop off PTP time when it is available, and off the local monotonic
/// clock when it is not.
pub struct MediaPacer {
    period_nanos: u64,
    target_nanos: u128,
    started: bool,
    local: Pacer,
    spin: bool,
    resyncs: u64,
}

/// The pacer as a mathematical value.
pub struct MediaPacerView {
    pub period: u64,
    /// The last deadline in PTP time.
    pub target: u128,
    pub started: bool,
    pub local: Pacer,
    pub spin: bool,
    pub resyncs: u64,
}

impl View for MediaPacer {
    type V = MediaPacerView;

    closed spec fn view(&self) -> MediaPacerView {
        MediaPacerView {
            period: self.period_nanos,
            target: self.target_nanos,
            started: self.started,
            local: self.local,
            spin: self.spin,
            resyncs: self.resyncs,
        }
    }
}

/// The next deadline in PTP time.
pub open spec fn next_target(v: MediaPacerView, now: u128) -> int {
    if v.started {
        v.target + v.period
    } else {
        now + v.period
    }
}

/// Whether a deadline is in the past or more than a second ahead: the timeline moved
/// underneath.
pub open spec fn displaced(due: int, now: u128) -> bool {
    due < now || due > now + FURTHEST_NANOS
}

/// Whether the deadlines that a wait counts can be counted.
pub open spec fn media_fits(v: MediaPacerView, now: u128) -> bool {
    &&& next_target(v, now) <= u128::MAX
    &&& displaced(next_target(v, now), now) ==> now + v.period <= u128::MAX
}

/// The pacer after a wait that begins at a PTP instant, and how to wait.
pub open spec fn media_paced(v: MediaPacerView, now: u128) -> (MediaPacerView, Wait) {
    let due = next_target(v, now);
    if displaced(due, now) {
        (
            MediaPacerView {
                target: (now + v.period) as u128,
                started: true,
                resyncs: counted(v.resyncs),
                ..v
            },
            Wait::Missed,
        )
    } else {
        (
            MediaPacerView { target: due as u128, started: true, ..v },
            waiting(due - now, due as u128, v.spin),
        )
    }
}

/// The pacer and its wait, by PTP time where there is any and by local time where there is none.
pub open spec fn planned(v: MediaPacerView, ptp_now: Option<u128>, local_now: u128) -> (MediaPacerView, Wait) {
    match ptp_now {
        Some(now) => media_paced(v, now),
        None => {
            let (local, wait) = paced(v.local, local_now);
            (MediaPacerView { local, ..v }, wait)
        },
    }
}

impl MediaPacer {
    pub closed spec fn wf(&self) -> bool {
        &&& self.local.period_nanos == self.period_nanos
        &&& self.local.spin == self.spin
    }

    pub fn new(period_nanos: u64, local_now: u128, spin: bool) -> (r: Self)
        ensures
            r.wf(),
            r@ == (MediaPacerView {
                period: period_nanos,
                target: 0,
                started: false,
                local: Pacer { period_nanos, next: local_now, spin },
                spin,
                resyncs: 0,
            }),
    {
        MediaPacer {
            period_nanos,
            target_nanos: 0,
            started: false,
            local: Pacer::new(period_nanos, local_now, spin),
            spin,
            resyncs: 0,
        }
    }

    pub fn resyncs(&self) -> (r: u64)
        ensures
            r == self@.resyncs,
    {
        self.resyncs
    }

    /// How to wait for the next tick, given PTP time, where there is a disciplined clock,
    /// and local time.
    pub fn plan(&mut self, ptp_now: Option<u128>, local_now: u128) -> (r: Wait)
        requires
            old(self).wf(),
            ptp_now matches Some(now) ==> media_fits(old(self)@, now),
            ptp_now is None ==> old(self)@.local.fits(),
        ensures
            final(self).wf(),
            (final(self)@, r) == planned(old(self)@, ptp_now, local_now),
    {
        let now: u128 = match ptp_now {
            Some(now) => now,
            None => {
                return self.local.plan(local_now);
            },
        };
        let due: u128 = if self.started {
            self.target_nanos + self.period_nanos as u128
        } else {
            now + self.period_nanos as u128
        };
        self.started = true;
        if due < now || due - now > FURTHEST_NANOS {
            self.target_nanos = now + self.period_nanos as u128;
            self.resyncs = self.resyncs.wrapping_add(1);
            return Wait::Missed;
        }
        self.target_nanos = due;
        wait_out(due - now, due, self.spin)
    }
}

/// However far a step moves PTP time, the pacer neither sleeps it out nor sprints to catch
/// up: what it waits is never more than a second, and the deadline after a step is one
/// period from the new time.
pub proof fn law_step_neither_stalls_nor_sprints(v: MediaPacerView, now: u128)
    requires
        media_fits(v, now),
    ensures
        media_paced(v, now).1 matches Wait::Until { sleep_nanos, .. } ==> sleep_nanos <= FURTHEST_NANOS,
        media_paced(v, now).1 == Wait::Missed ==> media_paced(v, now).0.target == now + v.period
            && media_paced(v, now).0.resyncs == counted(v.resyncs),
{
}

/// How long a run of blocks lasts.
pub open spec fn period_of(blocks: int, block: int, rate: int) -> int {
    (blocks * block * 1_000_000_000) / rate
}

/// How long `blocks` blocks of `block` samples last, in nanoseconds.
pub fn wake_period(blocks: usize, block: usize, sample_rate: u32) -> (r: u64)
    requires
        sample_rate > 0,
        blocks * block * 1_000_000_000 <= u64::MAX,
    ensures
        r == period_of(blocks as int, block as int, sample_rate as int),
{
    proof {
        let n = blocks * block;
        assert(n <= n * 1_000_000_000) by (nonlinear_arith)
            requires
                n >= 0,
        ;
        assert(blocks * block >= 0) by (nonlinear_arith);
    }
    (blocks as u64 * block as u64) * 1_000_000_000 / sample_rate as u64
}

} // verus!
