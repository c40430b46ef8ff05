//! Where a packet lands, what a pull gives, and how losses sound.

use vstd::prelude::*;

use crate::bytes::lemma_radix_values;
use crate::rtp::jitter::{
    concealed, depth_of, drift_by, drift_is, pulled, pushed, ts_diff, DriftSteps, JitterBuffer, JitterStats,
    JitterView, Pull, Push,
};
use crate::rtp::jitter_laws::{doubled, law_dropout_fades_to_silence, pulled_in_turn, taken};
use crate::sample::{exact, whole_is, Sample};

verus! {

/// How many samples ahead of the playout point a packet is: negative for behind, and read the
/// short way around the end of 32 bits.
pub open spec fn lead(timestamp: u32, playout: u32) -> int {
    let d = (timestamp - playout) % 0x1_0000_0000;
    if d < 0x8000_0000 {
        d
    } else {
        d - 0x1_0000_0000
    }
}

/// The distance between two timestamps is the short way around, with its sign.
pub proof fn law_distance_is_the_short_way(a: u32, b: u32, r: i64)
    requires
        call_ensures(ts_diff, (a, b), r),
    ensures
        r == lead(a, b),
        (b + r) % 0x1_0000_0000 == a,
{
    lemma_radix_values();
}

/// A packet goes where its timestamp says: so many whole blocks ahead of the playout point, and
/// nowhere else. One from beyond the buffer on either side starts it over, with that packet at
/// the target depth; one off the grid, one whose time has passed and one that is already there
/// change nothing but a count.
pub proof fn law_packet_lands_by_its_timestamp<S: Sample>(v: JitterView<S>, timestamp: u32, samples: Seq<S>)
    requires
        v.started,
        v.block > 0,
        1 <= v.target < v.queue.len(),
    ensures
        ({
            let (after, r) = pushed(v, timestamp, samples);
            let n = lead(timestamp, v.playout);
            let room = v.queue.len() * v.block;
            &&& after.queue.len() == v.queue.len()
            &&& after.started
            &&& v.stats.received < u64::MAX ==> after.stats.received == v.stats.received + 1
            &&& if n < -room || n >= room {
                &&& r == Push::Resync
                &&& after.playout == (timestamp - v.target * v.block) % 0x1_0000_0000
                &&& after.queue[v.target] == Some(samples)
                &&& forall|j: int| 0 <= j < v.queue.len() && j != v.target ==> (#[trigger] after.queue[j]) is None
                &&& !after.primed
            } else {
                &&& after.playout == v.playout
                &&& after.primed == v.primed
                &&& if n % v.block != 0 {
                    r == Push::Misaligned && after.queue == v.queue
                } else if n < 0 {
                    r == Push::Late((-n) as u32) && after.queue == v.queue
                } else {
                    let place = n / v.block;
                    &&& forall|j: int|
                        0 <= j < v.queue.len() && j != place ==> #[trigger] after.queue[j] == v.queue[j]
                    &&& v.queue[place] is Some ==> r == Push::Duplicate && after.queue[place] == v.queue[place]
                    &&& v.queue[place] is None ==> r == Push::Accepted && after.queue[place] == Some(samples)
                }
            }
        }),
{
    lemma_radix_values();
    let n = lead(timestamp, v.playout);
    if n < 0 {
        lemma_turned(n, v.block);
    }
    let room = v.queue.len() * v.block;
    if 0 <= n < room {
        lemma_inside(n, v.block, v.queue.len() as int);
    }
}

proof fn lemma_turned(n: int, b: int)
    requires
        b > 0,
        n < 0,
    ensures
        n % b != 0 <==> (-n) % b != 0,
{
    vstd::arithmetic::div_mod::lemma_fundamental_div_mod(n, b);
    vstd::arithmetic::div_mod::lemma_fundamental_div_mod(-n, b);
    if n % b == 0 {
        let q = n / b;
        assert(-n == (-q) * b) by (nonlinear_arith)
            requires
                n == b * q,
        ;
        vstd::arithmetic::div_mod::lemma_mod_multiples_basic(-q, b);
    }
    if (-n) % b == 0 {
        let q = (-n) / b;
        assert(n == (-q) * b) by (nonlinear_arith)
            requires
                -n == b * q,
        ;
        vstd::arithmetic::div_mod::lemma_mod_multiples_basic(-q, b);
    }
}

proof fn lemma_inside(n: int, b: int, cap: int)
    requires
        b > 0,
        0 <= n < cap * b,
    ensures
        0 <= n / b < cap,
{
    vstd::arithmetic::div_mod::lemma_fundamental_div_mod(n, b);
    let q = n / b;
    assert(0 <= q < cap) by (nonlinear_arith)
        requires
            n == b * q + n % b,
            0 <= n % b < b,
            0 <= n < cap * b,
    ;
}

/// Every packet is counted once more, under what became of it and under nothing else.
pub proof fn law_packets_are_counted<S: Sample>(v: JitterView<S>, timestamp: u32, samples: Seq<S>)
    requires
        v.started,
        v.stats.received < u64::MAX,
        v.stats.duplicates < u64::MAX,
        v.stats.late < u64::MAX,
        v.stats.resyncs < u64::MAX,
        v.stats.misaligned < u64::MAX,
    ensures
        ({
            let (after, r) = pushed(v, timestamp, samples);
            let one = |b: bool| if b {
                1int
            } else {
                0
            };
            &&& after.stats.received == v.stats.received + 1
            &&& after.stats.duplicates == v.stats.duplicates + one(r == Push::Duplicate)
            &&& after.stats.late == v.stats.late + one(r is Late)
            &&& after.stats.resyncs == v.stats.resyncs + one(r == Push::Resync)
            &&& after.stats.misaligned == v.stats.misaligned + one(r == Push::Misaligned)
            &&& after.stats.lost == v.stats.lost
            &&& after.stats.depth == v.stats.depth
        }),
{
}

/// Every pull of a started buffer moves on by one block: what was due next is due now, and the
/// playout point is a block later. A pull of one that has not started changes nothing.
pub proof fn law_pull_moves_on_by_a_block<S: Sample>(v: JitterView<S>, out: Seq<S>, r: Pull, after: JitterView<S>)
    requires
        pulled(v, out, r, after),
        v.queue.len() > 0,
    ensures
        !v.started ==> after == v && r == Pull::Idle,
        v.started ==> {
            &&& after.playout == (v.playout + v.block) % 0x1_0000_0000
            &&& after.queue.len() == v.queue.len()
            &&& after.queue.last() is None
            &&& forall|j: int| 0 <= j < v.queue.len() - 1 ==> #[trigger] after.queue[j] == v.queue[j + 1]
            &&& after.started
            &&& after.target == v.target
            &&& after.block == v.block
        },
{
}

/// A pull gives what is queued, as it came, and remembers it; with nothing queued it is
/// pre-roll until something has been played, and loss from then on.
pub proof fn law_pull_says_what_it_gave<S: Sample>(
    val: spec_fn(S) -> real,
    v: JitterView<S>,
    out: Seq<S>,
    r: Pull,
    after: JitterView<S>,
)
    requires
        exact(val),
        pulled(v, out, r, after),
        v.started,
        v.queue.len() > 0,
    ensures
        v.queue[0] matches Some(samples) ==> r == Pull::Filled && out == samples && after.primed,
        v.queue[0] is None && !v.primed ==> r == Pull::Priming && !after.primed,
        v.queue[0] is None && v.primed ==> r == Pull::Concealed && after.primed,
        r == Pull::Priming ==> forall|i: int| 0 <= i < out.len() ==> val(#[trigger] out[i]) == 0 as real,
        r == Pull::Concealed && v.stats.lost < u64::MAX ==> after.stats.lost == v.stats.lost + 1,
        r != Pull::Concealed ==> after.stats.lost == v.stats.lost,
{
    if r == Pull::Priming {
        assert forall|i: int| 0 <= i < out.len() implies val(#[trigger] out[i]) == 0 as real by {
            assert(whole_is(0, out[i]));
        }
    }
}

/// In exact arithmetic the losses that follow a block that was played are that block at half
/// the level for each, and silence from the seventh on, whatever was lost before it. So a lone
/// loss is always a repeat at half level.
pub proof fn law_losses_start_from_the_last_block_played<S: Sample>(
    val: spec_fn(S) -> real,
    views: Seq<JitterView<S>>,
    outs: Seq<Seq<S>>,
    results: Seq<Pull>,
    k: int,
    i: int,
)
    requires
        exact(val),
        pulled_in_turn(views, outs, results),
        1 <= k < outs.len(),
        results[0] == Pull::Filled,
        forall|j: int| 1 <= j <= k ==> #[trigger] results[j] == Pull::Concealed,
        0 <= i < outs[0].len(),
    ensures
        outs[k].len() == outs[0].len(),
        k <= 6 ==> val(outs[k][i]) * doubled(k) == val(outs[0][i]),
        k >= 7 ==> val(outs[k][i]) == 0 as real,
        k == 1 ==> val(outs[1][i]) + val(outs[1][i]) == val(outs[0][i]),
{
    lemma_loss_run(val, views, outs, results, k, i);
    assert(results[k] == Pull::Concealed);
    assert(pulled(views[k], outs[k], results[k], views[k + 1]));
    let v = views[k];
    let run = (v.run + 1) as u32;
    if v.run < 0xFFFF_FFFF {
        assert(concealed(v.last_good, run, outs[k], views[k + 1].last_good));
        law_dropout_fades_to_silence(val, v.last_good, run, outs[k], views[k + 1].last_good, i);
    } else {
        law_dropout_fades_to_silence(val, v.last_good, v.run, outs[k], views[k + 1].last_good, i);
    }
    if k == 1 {
        assert(doubled(1) == doubled(0) + doubled(0));
        assert(val(outs[1][i]) * (2 as real) == val(outs[1][i]) + val(outs[1][i])) by (nonlinear_arith);
    }
}

/// Before loss `k` in a row the buffer still remembers the block that was played, and has
/// counted `k - 1` losses.
proof fn lemma_loss_run<S: Sample>(
    val: spec_fn(S) -> real,
    views: Seq<JitterView<S>>,
    outs: Seq<Seq<S>>,
    results: Seq<Pull>,
    k: int,
    i: int,
)
    requires
        exact(val),
        pulled_in_turn(views, outs, results),
        1 <= k < outs.len(),
        results[0] == Pull::Filled,
        forall|j: int| 1 <= j < k ==> #[trigger] results[j] == Pull::Concealed,
        0 <= i < outs[0].len(),
    ensures
        views[k].last_good.len() == outs[0].len(),
        k <= 7 ==> views[k].run == k - 1 && views[k].last_good == outs[0],
        k > 7 ==> views[k].run >= 7,
    decreases k,
{
    if k == 1 {
        assert(pulled(views[0], outs[0], results[0], views[1]));
    } else {
        lemma_loss_run(val, views, outs, results, k - 1, i);
        assert(results[k - 1] == Pull::Concealed);
        assert(pulled(views[k - 1], outs[k - 1], results[k - 1], views[k]));
    }
}

/// The depth reported after a pull is the number of blocks queued, as long as the whole buffer
/// is less than half the range of timestamps; and it is the newest of the readings, of which the
/// last sixty-four are kept.
pub proof fn law_depth_is_what_is_queued<S: Sample>(v: JitterView<S>, out: Seq<S>, r: Pull, after: JitterView<S>)
    requires
        pulled(v, out, r, after),
        v.started,
        v.block > 0,
        0 < v.queue.len() <= usize::MAX,
        v.queue.len() * v.block < 0x8000_0000,
        v.history.len() <= 64,
    ensures
        after.stats.depth == taken(after.queue, after.queue.len() as int),
        after.history.len() == (if v.history.len() < 64 {
            v.history.len() + 1
        } else {
            64
        }),
        after.history.last() == after.stats.depth,
        forall|j: int|
            1 <= j < after.history.len() ==> after.history[after.history.len() - 1 - j] == #[trigger] v.history[v.history.len()
                - j],
{
    lemma_depth(after.queue, v.block, after.queue.len() as int);
    lemma_taken_bound(after.queue, after.queue.len() as int);
}

proof fn lemma_taken_bound<S>(queue: Seq<Option<Seq<S>>>, n: int)
    requires
        0 <= n,
    ensures
        0 <= taken(queue, n) <= n,
    decreases n,
{
    if n > 0 {
        lemma_taken_bound(queue, n - 1);
    }
}

proof fn lemma_depth<S>(queue: Seq<Option<Seq<S>>>, block: int, n: int)
    requires
        block > 0,
        0 <= n,
        n * block < 0x8000_0000,
    ensures
        depth_of(queue, block, n) == taken(queue, n),
    decreases n,
{
    if n > 0 {
        assert(0 <= (n - 1) * block < n * block) by (nonlinear_arith)
            requires
                block > 0,
                n > 0,
        ;
        lemma_depth(queue, block, n - 1);
        vstd::arithmetic::div_mod::lemma_small_mod(((n - 1) * block) as nat, 0x1_0000_0000);
    }
}

/// The sum of the first `n` readings.
pub open spec fn readings(history: Seq<usize>, n: int) -> int
    decreases n,
{
    if n <= 0 {
        0
    } else {
        readings(history, n - 1) + history[n - 1]
    }
}

proof fn lemma_readings(history: Seq<usize>)
    ensures
        crate::rtp::jitter::total_depth(history) == readings(history, history.len() as int),
    decreases history.len(),
{
    if history.len() > 0 {
        lemma_readings(history.drop_last());
        lemma_readings_prefix(history, history.len() - 1);
    }
}

proof fn lemma_readings_prefix(history: Seq<usize>, n: int)
    requires
        0 <= n < history.len(),
    ensures
        readings(history.drop_last(), n) == readings(history, n),
    decreases n,
{
    if n > 0 {
        lemma_readings_prefix(history, n - 1);
    }
}

/// In exact arithmetic the drift is how far the mean of the depth readings lies above the
/// target, and there is none to speak of before the sixteenth reading.
pub proof fn law_drift_is_the_mean_beyond_the_target<S: Sample>(
    val: spec_fn(S) -> real,
    b: JitterBuffer<S>,
    r: Option<S>,
)
    requires
        exact(val),
        call_ensures(JitterBuffer::<S>::drift, (&b,), r),
        readings(b@.history, b@.history.len() as int) <= i64::MAX,
        b@.history.len() <= 64,
        b@.target <= i64::MAX,
        b@.target >= 0,
    ensures
        r is None <==> b@.history.len() < 16,
        r matches Some(d) ==> (val(d) + b@.target as real) * (b@.history.len() as real) == readings(
            b@.history,
            b@.history.len() as int,
        ) as real,
{
    if let Some(d) = r {
        let v = b@;
        assert(drift_is(v, d));
        let w = choose|w: DriftSteps<S>| #[trigger] drift_by(v, w, d);
        lemma_readings(v.history);
        lemma_readings_nonnegative(v.history, v.history.len() as int);
        let sum = readings(v.history, v.history.len() as int) as real;
        let n = v.history.len() as real;
        assert(val(w.mean) == sum / n);
        assert(sum / n * n == sum) by (nonlinear_arith)
            requires
                n > 0 as real,
        ;
        assert(val(d) + v.target as real == sum / n);
    }
}

proof fn lemma_readings_nonnegative(history: Seq<usize>, n: int)
    ensures
        readings(history, n) >= 0,
    decreases n,
{
    if n > 0 {
        lemma_readings_nonnegative(history, n - 1);
    }
}

/// A new buffer holds nothing and has counted nothing, asks for a depth of at least one, and
/// has room for four times that and for no less than sixty-four packets.
pub proof fn law_new_buffer_is_empty<S: Sample>(block: usize, target: usize, b: JitterBuffer<S>)
    requires
        call_ensures(JitterBuffer::<S>::new, (block, target), b),
    ensures
        b@.block == block,
        b@.target == (if target == 0 {
            1
        } else {
            target as int
        }),
        b@.queue.len() >= 64,
        b@.queue.len() >= 4 * target,
        b@.queue.len() == 64 || b@.queue.len() == 4 * target,
        forall|j: int| 0 <= j < b@.queue.len() ==> (#[trigger] b@.queue[j]) is None,
        !b@.started,
        !b@.primed,
        b@.stats == (JitterStats {
            received: 0,
            duplicates: 0,
            late: 0,
            lost: 0,
            resyncs: 0,
            misaligned: 0,
            depth: 0,
        }),
        b@.history.len() == 0,
{
}

/// A packet changes where the buffer stands and what it counts of packets, and nothing that has
/// to do with what was played.
pub proof fn law_packets_leave_the_playing_alone<S: Sample>(v: JitterView<S>, timestamp: u32, samples: Seq<S>)
    ensures
        ({
            let (after, r) = pushed(v, timestamp, samples);
            &&& after.block == v.block
            &&& after.target == v.target
            &&& after.last_good == v.last_good
            &&& after.run == v.run
            &&& after.history == v.history
            &&& after.stats.lost == v.stats.lost
            &&& after.stats.depth == v.stats.depth
            &&& v.started && r != Push::Resync ==> after.playout == v.playout && after.primed == v.primed
            &&& r != Push::Resync ==> after.stats.resyncs == v.stats.resyncs
            &&& r == Push::Misaligned || r == Push::Duplicate || r is Late ==> v.started ==> after.queue == v.queue
        }),
{
}

/// A pull counts what was lost and how deep the queue is, and nothing of packets; and before the
/// first packet it changes nothing.
pub proof fn law_pulls_leave_the_packet_counts_alone<S: Sample>(
    v: JitterView<S>,
    out: Seq<S>,
    r: Pull,
    after: JitterView<S>,
)
    requires
        pulled(v, out, r, after),
    ensures
        after.block == v.block,
        after.target == v.target,
        after.started == v.started,
        after.stats == (JitterStats { lost: after.stats.lost, depth: after.stats.depth, ..v.stats }),
        !v.started ==> after == v && r == Pull::Idle,
        r == Pull::Priming ==> after.last_good == v.last_good && after.run == v.run,
        r == Pull::Filled ==> after.last_good == out && after.run == 0,
        r == Pull::Concealed && v.run < u32::MAX ==> after.run == v.run + 1,
        r == Pull::Concealed && v.run < 6 ==> after.last_good == v.last_good,
{
}

} // verus!
