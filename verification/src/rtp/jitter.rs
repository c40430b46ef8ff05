//! The receive buffer: turns an arriving RTP stream into the aligned blocks the mix engine
//! requires.
//!
//! Packets are placed by timestamp, which is the media clock, and not by sequence number.
//! Timestamps are compared around the end of 32 bits, so the rollover is no event.
//!
//! Drift is measured and reported, not corrected.

use std::collections::VecDeque;

use vstd::prelude::*;

use crate::bytes::{lemma_radix_values, signed, to_i32};
use crate::engine::kernels::{copy_row, scale_row, silence_row, silent_vec};
use crate::engine::plan::{scaled_by, silent};
use crate::ptp::servo::{counted, distance};
use crate::sample::{difference_is, product_is, quotient_is, ratio, ratio_is, whole_is, Sample};

verus! {

/// What happened to a pushed packet.
#[derive(Clone, Copy, Debug, PartialEq, Eq, Structural)]
pub enum Push {
    /// Placed in the buffer, ready to be played out.
    Accepted,
    /// This timestamp is already buffered.
    Duplicate,
    /// Arrived after its playout instant had passed, by this many samples.
    Late(u32),
    /// So far off that the sender must have restarted or jumped. The buffer started over
    /// around the new timestamp.
    Resync,
    /// Not a whole number of packets from the playout point: the sender's packet time is
    /// not the expected one.
    Misaligned,
}

/// What a pull produced.
#[derive(Clone, Copy, Debug, PartialEq, Eq, Structural)]
pub enum Pull {
    /// Real audio.
    Filled,
    /// Nothing had arrived for this instant, so the gap was concealed. This is loss.
    Concealed,
    /// The buffer is filling to its target depth. Output is silent. This is designed
    /// latency, and not loss.
    Priming,
    /// Nothing has ever arrived. Output is silent.
    Idle,
}

#[derive(Clone, Copy, Debug, PartialEq, Eq, Structural)]
pub struct JitterStats {
    pub received: u64,
    pub duplicates: u64,
    pub late: u64,
    pub lost: u64,
    pub resyncs: u64,
    pub misaligned: u64,
    /// Packets currently buffered ahead of the playout point.
    pub depth: usize,
}

pub open spec fn no_jitter_stats() -> JitterStats {
    JitterStats { received: 0, duplicates: 0, late: 0, lost: 0, resyncs: 0, misaligned: 0, depth: 0 }
}

impl Default for JitterStats {
    fn default() -> (r: Self)
        ensures
            r == no_jitter_stats(),
    {
        JitterStats { received: 0, duplicates: 0, late: 0, lost: 0, resyncs: 0, misaligned: 0, depth: 0 }
    }
}

/// The fewest packets that the buffer has room for.
pub const LEAST_CAPACITY: usize = 64;

/// How many depth readings are kept.
pub const HISTORY: usize = 64;

/// How many depth readings it takes to speak of drift.
pub const LEAST_HISTORY: usize = 16;

/// From this many lost packets in a row on, concealment is silence: half per packet has
/// fallen below a hundredth.
pub const SILENT_RUN: u32 = 7;

struct Slot<S> {
    timestamp: u32,
    filled: bool,
    samples: Vec<S>,
}

/// The receive buffer of one stream.
pub struct JitterBuffer<S> {
    block: usize,
    target_depth: usize,
    slots: Vec<Slot<S>>,
    playout: u32,
    playout_slot: usize,
    started: bool,
    primed: bool,
    last_good: Vec<S>,
    concealed_run: u32,
    stats: JitterStats,
    depth_history: VecDeque<usize>,
}

/// The buffer as a mathematical value.
#[verifier::ext_equal]
pub struct JitterView<S> {
    /// Samples per packet.
    pub block: int,
    /// How many packets of delay to hold before playing out.
    pub target: int,
    /// What is due now, one block later, and so on.
    pub queue: Seq<Option<Seq<S>>>,
    /// Timestamp of the next block to be played out.
    pub playout: u32,
    pub started: bool,
    /// Whether audio has been played since the last start. Until then an empty place is
    /// pre-roll and not loss.
    pub primed: bool,
    /// Last block actually played, kept for concealment.
    pub last_good: Seq<S>,
    /// How many blocks in a row have been concealed.
    pub run: u32,
    pub stats: JitterStats,
    /// Recent depth readings.
    pub history: Seq<usize>,
}

/// Position `k` of a ring of `cap` that starts at `start`.
spec fn ring(start: int, k: int, cap: int) -> int {
    if start + k < cap {
        start + k
    } else {
        start + k - cap
    }
}

/// The timestamp `n` samples after another, around the end of 32 bits.
pub open spec fn timestamp_after(t: int, n: int) -> int {
    (t + n) % 0x1_0000_0000
}

/// Signed distance from `b` to `a` in samples, around the end of 32 bits.
pub open spec fn timestamp_gap(a: int, b: int) -> int {
    signed(((a - b) % 0x1_0000_0000) as nat, 4)
}

/// What a slot holds.
spec fn held<S>(slot: Slot<S>) -> Option<Seq<S>> {
    if slot.filled {
        Some(slot.samples@)
    } else {
        None
    }
}

impl<S: Sample> View for JitterBuffer<S> {
    type V = JitterView<S>;

    closed spec fn view(&self) -> JitterView<S> {
        JitterView {
            block: self.block as int,
            target: self.target_depth as int,
            queue: Seq::new(
                self.slots@.len(),
                |k: int| held(self.slots@[ring(self.playout_slot as int, k, self.slots@.len() as int)]),
            ),
            playout: self.playout,
            started: self.started,
            primed: self.primed,
            last_good: self.last_good@,
            run: self.concealed_run,
            stats: self.stats,
            history: self.depth_history@,
        }
    }
}

/// How many packets the buffer has room for.
pub open spec fn capacity_for(target: int) -> int {
    let t = if target < 1 {
        1
    } else {
        target
    };
    if 4 * t < LEAST_CAPACITY {
        LEAST_CAPACITY as int
    } else {
        4 * t
    }
}

/// Whether a buffer of this size can be addressed.
pub open spec fn jitter_fits(block: int, target: int) -> bool {
    &&& capacity_for(target) * 64 <= i64::MAX
    &&& capacity_for(target) * 64 <= usize::MAX
    &&& capacity_for(target) * block <= i64::MAX
    &&& capacity_for(target) * block <= usize::MAX
}

pub open spec fn nothing_queued<S>(n: nat) -> Seq<Option<Seq<S>>> {
    Seq::new(n, |k: int| None)
}

/// The buffer started around a packet: it plays out from the target depth before it.
pub open spec fn started_at<S>(v: JitterView<S>, timestamp: u32) -> JitterView<S> {
    JitterView {
        playout: timestamp_after(timestamp as int, -(v.target * v.block)) as u32,
        queue: nothing_queued(v.queue.len()),
        started: true,
        primed: false,
        ..v
    }
}

/// Started over around a packet that is placed at the target depth.
pub open spec fn resynced<S>(v: JitterView<S>, timestamp: u32, samples: Seq<S>) -> JitterView<S> {
    let fresh = started_at(v, timestamp);
    JitterView {
        queue: fresh.queue.update(v.target, Some(samples)),
        stats: JitterStats { resyncs: counted(v.stats.resyncs), ..v.stats },
        ..fresh
    }
}

/// How many samples the buffer spans.
pub open spec fn span<S>(v: JitterView<S>) -> int {
    v.queue.len() * v.block
}

/// What becomes of a packet offered to a buffer that has started.
pub open spec fn placed<S>(v: JitterView<S>, timestamp: u32, samples: Seq<S>) -> (JitterView<S>, Push) {
    let gap = timestamp_gap(timestamp as int, v.playout as int);
    if gap < -span(v) || gap >= span(v) {
        (resynced(v, timestamp, samples), Push::Resync)
    } else if distance(gap) % v.block != 0 {
        (
            JitterView {
                stats: JitterStats { misaligned: counted(v.stats.misaligned), ..v.stats },
                ..v
            },
            Push::Misaligned,
        )
    } else if gap < 0 {
        (
            JitterView { stats: JitterStats { late: counted(v.stats.late), ..v.stats }, ..v },
            Push::Late((-gap) as u32),
        )
    } else if v.queue[gap / v.block] is Some {
        (
            JitterView {
                stats: JitterStats { duplicates: counted(v.stats.duplicates), ..v.stats },
                ..v
            },
            Push::Duplicate,
        )
    } else {
        (JitterView { queue: v.queue.update(gap / v.block, Some(samples)), ..v }, Push::Accepted)
    }
}

/// What becomes of a packet. The first one starts the buffer.
pub open spec fn pushed<S>(v: JitterView<S>, timestamp: u32, samples: Seq<S>) -> (JitterView<S>, Push) {
    let seen = JitterView {
        stats: JitterStats { received: counted(v.stats.received), ..v.stats },
        ..v
    };
    let ready = if seen.started {
        seen
    } else {
        started_at(seen, timestamp)
    };
    placed(ready, timestamp, samples)
}

/// How many of the first `n` places are taken, and not too far ahead to tell from behind.
pub open spec fn depth_of<S>(queue: Seq<Option<Seq<S>>>, block: int, n: int) -> int
    decreases n,
{
    if n <= 0 {
        0
    } else {
        depth_of(queue, block, n - 1) + if queue[n - 1] is Some && ((n - 1) * block) % 0x1_0000_0000
            < 0x8000_0000 {
            1int
        } else {
            0
        }
    }
}

/// Readings with one more, the oldest dropped when full.
pub open spec fn recorded(history: Seq<usize>, depth: usize) -> Seq<usize> {
    if history.len() == HISTORY {
        history.drop_first().push(depth)
    } else {
        history.push(depth)
    }
}

/// The playout point moved on by one block.
pub open spec fn advanced<S>(v: JitterView<S>) -> JitterView<S> {
    let queue = v.queue.drop_first().push(None);
    let depth = depth_of(queue, v.block, queue.len() as int) as usize;
    JitterView {
        queue,
        playout: timestamp_after(v.playout as int, v.block) as u32,
        stats: JitterStats { depth, ..v.stats },
        history: recorded(v.history, depth),
        ..v
    }
}

pub open spec fn halvings_by<S: Sample>(n: int, half: S, steps: Seq<S>) -> bool {
    &&& steps.len() == n + 1
    &&& whole_is(1, steps[0])
    &&& forall|i: int| 0 <= i < n ==> product_is(#[trigger] steps[i], half, steps[i + 1])
}

/// `r` is one, halved `n` times.
pub open spec fn halved<S: Sample>(n: int, r: S) -> bool {
    exists|half: S, steps: Seq<S>| #[trigger]
        halvings_by(n, half, steps) && ratio_is(1, 2, half) && steps.last() == r
}

/// The run of concealed blocks with one more.
pub open spec fn longer_run(run: u32) -> u32 {
    if run == u32::MAX {
        run
    } else {
        (run + 1) as u32
    }
}

/// A gap concealed: the last good block at half the level for each block lost, and silence
/// once that is too quiet to matter.
pub open spec fn concealed<S: Sample>(last_good: Seq<S>, run: u32, out: Seq<S>, kept: Seq<S>) -> bool {
    if run >= SILENT_RUN {
        out.len() == last_good.len() && silent(out) && kept.len() == last_good.len() && silent(kept)
    } else {
        kept == last_good && exists|g: S| #[trigger] halved(run as int, g) && scaled_by(last_good, g, out)
    }
}

/// What a pull gives, and what it leaves.
pub open spec fn pulled<S: Sample>(v: JitterView<S>, out: Seq<S>, r: Pull, after: JitterView<S>) -> bool {
    if !v.started {
        r == Pull::Idle && out.len() == v.block && silent(out) && after == v
    } else {
        match v.queue[0] {
            Some(samples) => {
                &&& r == Pull::Filled
                &&& out == samples
                &&& after == advanced(JitterView { last_good: samples, run: 0, primed: true, ..v })
            },
            None => if !v.primed {
                &&& r == Pull::Priming
                &&& out.len() == v.block
                &&& silent(out)
                &&& after == advanced(v)
            } else {
                &&& r == Pull::Concealed
                &&& concealed(v.last_good, longer_run(v.run), out, after.last_good)
                &&& after == advanced(
                    JitterView {
                        last_good: after.last_good,
                        run: longer_run(v.run),
                        stats: JitterStats { lost: counted(v.stats.lost), ..v.stats },
                        ..v
                    },
                )
            },
        }
    }
}

/// The sum of depth readings.
pub open spec fn total_depth(history: Seq<usize>) -> int
    decreases history.len(),
{
    if history.len() == 0 {
        0
    } else {
        total_depth(history.drop_last()) + history.last()
    }
}

/// The steps to the drift.
pub struct DriftSteps<S> {
    pub sum: S,
    pub count: S,
    pub mean: S,
    pub target: S,
}

pub open spec fn drift_by<S: Sample>(v: JitterView<S>, w: DriftSteps<S>, r: S) -> bool {
    &&& whole_is(total_depth(v.history), w.sum)
    &&& whole_is(v.history.len() as int, w.count)
    &&& quotient_is(w.sum, w.count, w.mean)
    &&& whole_is(v.target, w.target)
    &&& difference_is(w.mean, w.target, r)
}

/// `r` is the mean depth beyond the target.
pub open spec fn drift_is<S: Sample>(v: JitterView<S>, r: S) -> bool {
    exists|w: DriftSteps<S>| #[trigger] drift_by(v, w, r)
}

/// A buffer that has received nothing.
pub open spec fn jitter_fresh<S: Sample>(v: JitterView<S>, block: int, target: int) -> bool {
    &&& v.block == block
    &&& v.target == (if target < 1 {
        1
    } else {
        target
    })
    &&& v.queue == nothing_queued::<S>(capacity_for(target) as nat)
    &&& v.playout == 0
    &&& !v.started
    &&& !v.primed
    &&& v.last_good.len() == block
    &&& silent(v.last_good)
    &&& v.run == 0
    &&& v.stats == no_jitter_stats()
    &&& v.history == Seq::<usize>::empty()
}

/// Signed distance from `b` to `a` in samples, correct across the wrap.
pub fn ts_diff(a: u32, b: u32) -> (r: i64)
    ensures
        r == timestamp_gap(a as int, b as int),
        -0x8000_0000 <= r <= 0x7FFF_FFFF,
{
    let d: u32 = a.wrapping_sub(b);
    assert(d == (a - b) % 0x1_0000_0000);
    to_i32(d) as i64
}

/// Counting on twice is counting on by the sum.
pub proof fn lemma_after_twice(t: int, a: int, b: int)
    ensures
        timestamp_after(timestamp_after(t, a), b) == timestamp_after(t, a + b),
{
    vstd::arithmetic::div_mod::lemma_add_mod_noop(t + a, b, 0x1_0000_0000);
}

/// A timestamp is its distance after another.
proof fn lemma_gap_back(a: u32, b: u32)
    requires
        timestamp_gap(a as int, b as int) >= 0,
    ensures
        timestamp_after(b as int, timestamp_gap(a as int, b as int)) == a,
{
    lemma_radix_values();
}

/// The distance to what is `n` samples later.
proof fn lemma_gap_after(b: u32, n: int)
    requires
        0 <= n,
    ensures
        timestamp_gap(timestamp_after(b as int, n), b as int) >= 0 <==> n % 0x1_0000_0000 < 0x8000_0000,
{
    lemma_radix_values();
    let m = 0x1_0000_0000int;
    assert((timestamp_after(b as int, n) - b) % m == n % m) by {
        vstd::arithmetic::div_mod::lemma_sub_mod_noop(b + n, b as int, m);
        vstd::arithmetic::div_mod::lemma_mod_mod(b + n, m, 1);
        vstd::arithmetic::div_mod::lemma_sub_mod_noop((b + n) % m, b as int, m);
    }
}

impl<S: Sample> JitterBuffer<S> {
    /// Every block has its size, and every filled slot its place on the timeline.
    pub closed spec fn wf(&self) -> bool {
        &&& self.target_depth >= 1
        &&& self.slots@.len() == capacity_for(self.target_depth as int)
        &&& jitter_fits(self.block as int, self.target_depth as int)
        &&& self.playout_slot < self.slots@.len()
        &&& self.last_good@.len() == self.block
        &&& self.depth_history@.len() <= HISTORY
        &&& forall|i: int| 0 <= i < self.depth_history@.len() ==> #[trigger] self.depth_history@[i] <= self.slots@.len()
        &&& forall|i: int| 0 <= i < self.slots@.len() ==> (#[trigger] self.slots@[i]).samples@.len() == self.block
        &&& forall|k: int|
            #![trigger ring(self.playout_slot as int, k, self.slots@.len() as int)]
            0 <= k < self.slots@.len() ==> self.on_time(k)
    }

    /// Whether what is held `k` blocks ahead carries the timestamp of that moment.
    closed spec fn on_time(&self, k: int) -> bool {
        let slot = self.slots@[ring(self.playout_slot as int, k, self.slots@.len() as int)];
        slot.filled ==> slot.timestamp == timestamp_after(self.playout as int, k * self.block)
    }

    /// What the invariant says of the mathematical value.
    pub proof fn lemma_wf(&self)
        requires
            self.wf(),
        ensures
            self@.target >= 1,
            self@.queue.len() == capacity_for(self@.target),
            jitter_fits(self@.block, self@.target),
            self@.last_good.len() == self@.block,
            self@.history.len() <= HISTORY,
            forall|k: int| 0 <= k < self@.queue.len() ==> (#[trigger] self@.queue[k] is Some ==> self@.queue[k]->0.len()
                == self@.block),
    {
    }

    /// `block` is samples per packet; `target_depth` is packets of delay.
    pub fn new(block: usize, target_depth: usize) -> (r: Self)
        requires
            jitter_fits(block as int, target_depth as int),
        ensures
            r.wf(),
            jitter_fresh(r@, block as int, target_depth as int),
    {
        let target_depth: usize = if target_depth < 1 {
            1
        } else {
            target_depth
        };
        let capacity: usize = if target_depth * 4 < LEAST_CAPACITY {
            LEAST_CAPACITY
        } else {
            target_depth * 4
        };
        let mut slots: Vec<Slot<S>> = Vec::new();
        let mut i: usize = 0;
        while i < capacity
            invariant
                i <= capacity,
                slots@.len() == i,
                forall|j: int|
                    0 <= j < i ==> !(#[trigger] slots@[j]).filled && slots@[j].samples@.len() == block,
            decreases capacity - i,
        {
            slots.push(Slot { timestamp: 0, filled: false, samples: silent_vec(block) });
            i += 1;
        }
        let r = JitterBuffer {
            block,
            target_depth,
            slots,
            playout: 0,
            playout_slot: 0,
            started: false,
            primed: false,
            last_good: silent_vec(block),
            concealed_run: 0,
            stats: JitterStats::default(),
            depth_history: VecDeque::new(),
        };
        assert(r@.queue =~= nothing_queued::<S>(capacity as nat));
        r
    }

    pub fn block_size(&self) -> (r: usize)
        ensures
            r == self@.block,
    {
        self.block
    }

    pub fn stats(&self) -> (r: JitterStats)
        ensures
            r == self@.stats,
    {
        self.stats
    }

    pub fn capacity(&self) -> (r: usize)
        ensures
            r == self@.queue.len(),
    {
        self.slots.len()
    }

    /// Mean buffer depth over recent history beyond the target, in packets.
    ///
    /// Near zero means that the sender's clock and ours agree.
    pub fn drift(&self) -> (r: Option<S>)
        requires
            self.wf(),
        ensures
            match r {
                Some(d) => {
                    &&& self@.history.len() >= LEAST_HISTORY
                    &&& drift_is(self@, d)
                },
                None => self@.history.len() < LEAST_HISTORY,
            },
    {
        if self.depth_history.len() < LEAST_HISTORY {
            return None;
        }
        let mut total: usize = 0;
        let mut i: usize = 0;
        let ghost history = self.depth_history@;
        let ghost cap = self.slots@.len() as int;
        while i < self.depth_history.len()
            invariant
                i <= history.len(),
                history == self.depth_history@,
                history.len() <= HISTORY,
                cap * 64 <= usize::MAX,
                forall|j: int| 0 <= j < history.len() ==> #[trigger] history[j] <= cap,
                total == total_depth(history.take(i as int)),
                total <= i * cap,
            decreases history.len() - i,
        {
            proof {
                assert(history.take(i + 1).drop_last() =~= history.take(i as int));
                assert(history.take(i + 1).last() == history[i as int]);
                assert((i + 1) * cap <= 64 * cap) by (nonlinear_arith)
                    requires
                        i + 1 <= 64,
                        cap >= 0,
                ;
                assert((i + 1) * cap == i * cap + cap) by (nonlinear_arith);
            }
            total += self.depth_history[i];
            i += 1;
        }
        proof {
            assert(history.take(i as int) =~= history);
            assert(i * cap <= 64 * cap) by (nonlinear_arith)
                requires
                    i <= 64,
                    cap >= 0,
            ;
        }
        let sum = S::whole(total as i64);
        let count = S::whole(self.depth_history.len() as i64);
        let mean = sum.over(count);
        let target = S::whole(self.target_depth as i64);
        let d = mean.minus(target);
        assert(self@.history == history);
        assert(history.len() >= LEAST_HISTORY);
        let ghost w = DriftSteps { sum, count, mean, target };
        assert(drift_by(self@, w, d));
        assert(drift_is(self@, d));
        Some(d)
    }

    fn start_at(&mut self, timestamp: u32)
        requires
            old(self).wf(),
        ensures
            final(self).wf(),
            final(self)@ == started_at(old(self)@, timestamp),
            final(self).playout_slot == 0,
    {
        let ghost before = self@;
        proof {
            assert(self.target_depth * self.block <= self.slots@.len() * self.block) by (nonlinear_arith)
                requires
                    self.target_depth <= self.slots@.len(),
                    self.block >= 0,
            ;
        }
        let back: usize = self.target_depth * self.block;
        let low: u32 = (back as u64 % 0x1_0000_0000) as u32;
        self.playout = timestamp.wrapping_sub(low);
        proof {
            vstd::arithmetic::div_mod::lemma_sub_mod_noop_right(timestamp as int, back as int, 0x1_0000_0000);
        }
        self.playout_slot = 0;
        self.started = true;
        self.primed = false;
        let mut i: usize = 0;
        while i < self.slots.len()
            invariant
                i <= self.slots@.len(),
                self.slots@.len() == old(self).slots@.len(),
                *self == (JitterBuffer { slots: self.slots, ..*self }),
                self.block == old(self).block,
                self.target_depth == old(self).target_depth,
                self.last_good == old(self).last_good,
                self.concealed_run == old(self).concealed_run,
                self.stats == old(self).stats,
                self.depth_history == old(self).depth_history,
                self.playout == timestamp_after(timestamp as int, -(before.target * before.block)),
                self.playout_slot == 0,
                self.started,
                !self.primed,
                forall|j: int|
                    0 <= j < self.slots@.len() ==> (#[trigger] self.slots@[j]).samples@.len() == self.block,
                forall|j: int| 0 <= j < i ==> !(#[trigger] self.slots@[j]).filled,
            decreases self.slots@.len() - i,
        {
            self.slots[i].filled = false;
            i += 1;
        }
        assert(self@.queue =~= nothing_queued::<S>(self.slots@.len()));
        assert(self@ =~= started_at(before, timestamp));
    }

    /// Puts audio `ahead` blocks after the playout point.
    fn place(&mut self, ahead: usize, timestamp: u32, samples: &[S])
        requires
            old(self).wf(),
            ahead < old(self)@.queue.len(),
            timestamp == timestamp_after(old(self)@.playout as int, ahead * old(self)@.block),
            samples@.len() == old(self)@.block,
        ensures
            final(self).wf(),
            final(self)@ == (JitterView {
                queue: old(self)@.queue.update(ahead as int, Some(samples@)),
                ..old(self)@
            }),
    {
        let cap: usize = self.slots.len();
        let ghost before = self@;
        let ghost start = self.playout_slot as int;
        let idx: usize = if ahead < cap - self.playout_slot {
            self.playout_slot + ahead
        } else {
            ahead - (cap - self.playout_slot)
        };
        assert(idx == ring(start, ahead as int, cap as int));
        self.slots[idx] = Slot { timestamp, filled: true, samples: vstd::slice::slice_to_vec(samples) };
        proof {
            let want = before.queue.update(ahead as int, Some(samples@));
            assert forall|k: int| 0 <= k < cap implies self@.queue[k] == want[k] by {
                if k != ahead {
                    assert(ring(start, k, cap as int) != idx);
                }
            }
            assert(self@.queue =~= want);
            assert forall|k: int|
                #![trigger ring(self.playout_slot as int, k, self.slots@.len() as int)]
                0 <= k < self.slots@.len() implies self.on_time(k) by {
                assert(old(self).on_time(k));
                if k != ahead {
                    assert(ring(start, k, cap as int) != idx);
                }
            }
        }
    }

    /// How many samples the buffer spans.
    fn span(&self) -> (r: i64)
        requires
            self.wf(),
        ensures
            r == span(self@),
            r >= 0,
            self@.block == 0 ==> r == 0,
    {
        let cap: usize = self.slots.len();
        proof {
            assert(cap * self.block >= 0) by (nonlinear_arith);
            if self.block == 0 {
                assert(cap * 0 == 0);
            }
        }
        (cap * self.block) as i64
    }

    /// Samples per packet, as a number of samples between timestamps.
    fn step(&self) -> (r: i64)
        requires
            self.wf(),
        ensures
            r == self@.block,
    {
        proof {
            let cap = self.slots@.len() as int;
            let block = self.block as int;
            assert(block <= cap * block) by (nonlinear_arith)
                requires
                    cap >= 1,
                    block >= 0,
            ;
        }
        self.block as i64
    }

    /// The place of a packet that is a whole number of blocks ahead, within the span.
    fn place_of(&self, timestamp: u32, gap: i64) -> (ahead: usize)
        requires
            self.wf(),
            gap == timestamp_gap(timestamp as int, self@.playout as int),
            0 <= gap < span(self@),
            gap as int % self@.block == 0,
        ensures
            ahead < self@.queue.len(),
            ahead == gap as int / self@.block,
            timestamp == timestamp_after(self@.playout as int, ahead * self@.block),
    {
        let block: i64 = self.step();
        let ghost cap = self.slots@.len() as int;
        proof {
            let g = gap as int;
            let b = block as int;
            assert(b == self.block);
            if b == 0 {
                assert(cap * b == 0) by (nonlinear_arith)
                    requires
                        b == 0,
                ;
            }
            vstd::arithmetic::div_mod::lemma_fundamental_div_mod(g, b);
            let q = g / b;
            assert(q * b == g && 0 <= q < cap) by (nonlinear_arith)
                requires
                    g == b * q + g % b,
                    g % b == 0,
                    b > 0,
                    0 <= g < cap * b,
            ;
            lemma_gap_back(timestamp, self.playout);
        }
        (gap / block) as usize
    }

    /// Whether a packet is already buffered at its place.
    fn holds(&self, ahead: usize, timestamp: u32) -> (r: bool)
        requires
            self.wf(),
            ahead < self@.queue.len(),
            timestamp == timestamp_after(self@.playout as int, ahead * self@.block),
        ensures
            r == (self@.queue[ahead as int] is Some),
    {
        let cap: usize = self.slots.len();
        let idx: usize = if ahead < cap - self.playout_slot {
            self.playout_slot + ahead
        } else {
            ahead - (cap - self.playout_slot)
        };
        proof {
            assert(idx == ring(self.playout_slot as int, ahead as int, cap as int));
            assert(self.on_time(ahead as int));
        }
        self.slots[idx].filled && self.slots[idx].timestamp == timestamp
    }

    /// Starts over around a packet.
    fn resync(&mut self, timestamp: u32, samples: &[S])
        requires
            old(self).wf(),
            samples@.len() == old(self)@.block,
        ensures
            final(self).wf(),
            final(self)@ == resynced(old(self)@, timestamp, samples@),
    {
        let ghost v = self@;
        self.stats.resyncs = self.stats.resyncs.wrapping_add(1);
        self.start_at(timestamp);
        proof {
            lemma_after_twice(timestamp as int, -(v.target * v.block), v.target * v.block);
        }
        self.place(self.target_depth, timestamp, samples);
    }

    /// Places a packet in a buffer that has started.
    fn seat(&mut self, timestamp: u32, samples: &[S]) -> (r: Push)
        requires
            old(self).wf(),
            samples@.len() == old(self)@.block,
        ensures
            final(self).wf(),
            (final(self)@, r) == placed(old(self)@, timestamp, samples@),
    {
        let gap: i64 = ts_diff(timestamp, self.playout);
        let span: i64 = self.span();
        if gap < -span || gap >= span {
            self.resync(timestamp, samples);
            return Push::Resync;
        }
        let far: i64 = if gap < 0 {
            -gap
        } else {
            gap
        };
        let block: i64 = self.step();
        assert(block > 0);
        if far % block != 0 {
            self.stats.misaligned = self.stats.misaligned.wrapping_add(1);
            return Push::Misaligned;
        }
        if gap < 0 {
            self.stats.late = self.stats.late.wrapping_add(1);
            return Push::Late(far as u32);
        }
        let ahead: usize = self.place_of(timestamp, gap);
        if self.holds(ahead, timestamp) {
            self.stats.duplicates = self.stats.duplicates.wrapping_add(1);
            return Push::Duplicate;
        }
        self.place(ahead, timestamp, samples);
        Push::Accepted
    }

    /// Offer a received packet's audio, tagged with its RTP timestamp.
    pub fn push(&mut self, timestamp: u32, samples: &[S]) -> (r: Push)
        requires
            old(self).wf(),
            samples@.len() == old(self)@.block,
        ensures
            final(self).wf(),
            (final(self)@, r) == pushed(old(self)@, timestamp, samples@),
    {
        self.stats.received = self.stats.received.wrapping_add(1);
        if !self.started {
            self.start_at(timestamp);
        }
        self.seat(timestamp, samples)
    }

    /// What is buffered from the playout point on.
    fn buffered(&self) -> (r: usize)
        requires
            self.wf(),
        ensures
            r == depth_of(self@.queue, self@.block, self@.queue.len() as int),
            r <= self@.queue.len(),
    {
        let cap: usize = self.slots.len();
        let mut n: usize = 0;
        let mut k: usize = 0;
        while k < cap
            invariant
                self.wf(),
                cap == self.slots@.len(),
                k <= cap,
                n <= k,
                n == depth_of(self@.queue, self@.block, k as int),
            decreases cap - k,
        {
            let idx: usize = if k < cap - self.playout_slot {
                self.playout_slot + k
            } else {
                k - (cap - self.playout_slot)
            };
            proof {
                assert(idx == ring(self.playout_slot as int, k as int, cap as int));
                assert(self.on_time(k as int));
                assert(k * self.block >= 0) by (nonlinear_arith);
                lemma_gap_after(self.playout, k * self.block);
            }
            if self.slots[idx].filled && ts_diff(self.slots[idx].timestamp, self.playout) >= 0 {
                n += 1;
            }
            k += 1;
        }
        n
    }

    /// Moves the playout point on by one block, past a slot that is empty.
    fn advance(&mut self)
        requires
            old(self).wf(),
            old(self)@.queue[0] is None,
        ensures
            final(self).wf(),
            final(self)@ == advanced(old(self)@),
    {
        let ghost before = *self;
        let ghost cap = self.slots@.len() as int;
        let low: u32 = (self.block as u64 % 0x1_0000_0000) as u32;
        self.playout = self.playout.wrapping_add(low);
        self.playout_slot = if self.playout_slot + 1 < self.slots.len() {
            self.playout_slot + 1
        } else {
            0
        };
        proof {
            let block = self.block as int;
            vstd::arithmetic::div_mod::lemma_add_mod_noop_right(before.playout as int, block, 0x1_0000_0000);
            assert(self.playout == timestamp_after(before.playout as int, block));
            assert forall|k: int|
                #![trigger ring(self.playout_slot as int, k, self.slots@.len() as int)]
                0 <= k < self.slots@.len() implies self.on_time(k) by {
                if k < cap - 1 {
                    assert(ring(self.playout_slot as int, k, cap) == ring(before.playout_slot as int, k + 1, cap));
                    assert(before.on_time(k + 1));
                    lemma_after_twice(before.playout as int, block, k * block);
                    assert(block + k * block == (k + 1) * block) by (nonlinear_arith);
                } else {
                    assert(ring(self.playout_slot as int, k, cap) == ring(before.playout_slot as int, 0, cap));
                    assert(held(before.slots@[before.playout_slot as int]) == before@.queue[0]);
                }
            }
            let want = before@.queue.drop_first().push(None);
            assert forall|k: int| 0 <= k < cap implies self@.queue[k] == want[k] by {
                if k < cap - 1 {
                    assert(ring(self.playout_slot as int, k, cap) == ring(before.playout_slot as int, k + 1, cap));
                } else {
                    assert(ring(self.playout_slot as int, k, cap) == ring(before.playout_slot as int, 0, cap));
                    assert(held(before.slots@[before.playout_slot as int]) == before@.queue[0]);
                }
            }
            assert(self@.queue =~= want);
        }
        let depth: usize = self.buffered();
        self.stats.depth = depth;
        if self.depth_history.len() == HISTORY {
            let _ = self.depth_history.pop_front();
        }
        self.depth_history.push_back(depth);
        assert(self@.history =~= recorded(before@.history, depth));
    }

    /// One, halved for each block lost.
    fn fading(run: u32) -> (g: S)
        ensures
            halved(run as int, g),
    {
        let half: S = ratio(1, 2);
        let mut g = S::whole(1);
        let ghost mut steps = seq![g];
        let mut i: u32 = 0;
        while i < run
            invariant
                i <= run,
                halvings_by(i as int, half, steps),
                steps.last() == g,
            decreases run - i,
        {
            let next = g.times(half);
            proof {
                let longer = steps.push(next);
                assert(halvings_by(i + 1, half, longer));
                steps = longer;
            }
            g = next;
            i += 1;
        }
        g
    }

    /// Fills `out` in place of a block that never came.
    fn conceal(&mut self, out: &mut [S])
        requires
            old(self).wf(),
            old(out)@.len() == old(self)@.block,
        ensures
            final(self).wf(),
            final(out)@.len() == old(out)@.len(),
            concealed(old(self)@.last_good, longer_run(old(self)@.run), final(out)@, final(self)@.last_good),
            final(self)@ == (JitterView {
                last_good: final(self)@.last_good,
                run: longer_run(old(self)@.run),
                ..old(self)@
            }),
    {
        if self.concealed_run < u32::MAX {
            self.concealed_run = self.concealed_run + 1;
        }
        if self.concealed_run >= SILENT_RUN {
            silence_row(out);
            self.last_good = silent_vec(self.block);
        } else {
            let g: S = Self::fading(self.concealed_run);
            scale_row(self.last_good.as_slice(), g, out);
            assert(halved(self.concealed_run as int, g) && scaled_by(self.last_good@, g, out@));
        }
    }

    /// Take the next block for playout. Always fills `out`, always advances by exactly one
    /// block once the stream has started.
    pub fn pull(&mut self, out: &mut [S]) -> (r: Pull)
        requires
            old(self).wf(),
            old(out)@.len() == old(self)@.block,
        ensures
            final(self).wf(),
            pulled(old(self)@, final(out)@, r, final(self)@),
            final(out)@.len() == old(out)@.len(),
    {
        let ghost v = self@;
        if !self.started {
            silence_row(out);
            return Pull::Idle;
        }
        let idx: usize = self.playout_slot;
        let ghost cap = self.slots@.len() as int;
        proof {
            assert(ring(idx as int, 0, cap) == idx);
            assert(self.on_time(0));
            assert(0 * self.block == 0);
        }
        if self.slots[idx].filled && self.slots[idx].timestamp == self.playout {
            let ghost samples = self.slots@[idx as int].samples@;
            copy_row(self.slots[idx].samples.as_slice(), out);
            self.slots[idx].filled = false;
            self.last_good = vstd::slice::slice_to_vec(out);
            self.concealed_run = 0;
            self.primed = true;
            proof {
                let u = JitterView {
                    last_good: samples,
                    run: 0,
                    primed: true,
                    queue: v.queue.update(0, None),
                    ..v
                };
                assert forall|k: int| 0 <= k < cap implies self@.queue[k] == u.queue[k] by {
                    if k != 0 {
                        assert(ring(idx as int, k, cap) != idx);
                    }
                }
                assert(self@ =~= u);
                assert forall|k: int|
                    #![trigger ring(self.playout_slot as int, k, self.slots@.len() as int)]
                    0 <= k < self.slots@.len() implies self.on_time(k) by {
                    assert(old(self).on_time(k));
                }
                assert(u.queue.drop_first() =~= v.queue.drop_first());
            }
            self.advance();
            return Pull::Filled;
        }
        if !self.primed {
            silence_row(out);
            self.advance();
            return Pull::Priming;
        }
        self.stats.lost = self.stats.lost.wrapping_add(1);
        self.conceal(out);
        self.advance();
        Pull::Concealed
    }
}

} // verus!
