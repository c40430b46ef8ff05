//! What holds of the receive buffer over several packets and pulls.

use vstd::prelude::*;

use crate::bytes::lemma_radix_values;
use crate::engine::plan::{scaled_by, silent};
use crate::ptp::servo::counted;
use crate::rtp::jitter::{
    concealed, halved, halvings_by, lemma_after_twice, pulled, pushed, span, started_at, timestamp_after, timestamp_gap,
    JitterStats, JitterView, Pull, Push, SILENT_RUN,
};
use crate::sample::{exact, product_is, ratio_by, ratio_is, whole_is, Ratio, Sample};

verus! {

/// Consecutive pulls: `views[k]` is the buffer before pull `k`.
pub open spec fn pulled_in_turn<S: Sample>(
    views: Seq<JitterView<S>>,
    outs: Seq<Seq<S>>,
    results: Seq<Pull>,
) -> bool {
    &&& views.len() == outs.len() + 1
    &&& results.len() == outs.len()
    &&& forall|k: int|
        0 <= k < outs.len() ==> pulled(#[trigger] views[k], outs[k], results[k], views[k + 1])
}

/// After `k` pulls what was due `k + j` blocks ahead is due in `j`.
proof fn lemma_queue_moves<S: Sample>(
    views: Seq<JitterView<S>>,
    outs: Seq<Seq<S>>,
    results: Seq<Pull>,
    k: int,
)
    requires
        pulled_in_turn(views, outs, results),
        views[0].started,
        views[0].queue.len() > 0,
        0 <= k <= outs.len(),
    ensures
        views[k].started,
        views[k].queue.len() == views[0].queue.len(),
        forall|j: int|
            0 <= j && k + j < views[0].queue.len() ==> #[trigger] views[k].queue[j] == views[0].queue[k + j],
    decreases k,
{
    if k > 0 {
        lemma_queue_moves(views, outs, results, k - 1);
        assert(pulled(views[k - 1], outs[k - 1], results[k - 1], views[k]));
        let before = views[k - 1].queue;
        assert forall|j: int| 0 <= j && k + j < views[0].queue.len() implies #[trigger] views[k].queue[j]
            == views[0].queue[k + j] by {
            assert(views[k].queue[j] == before[j + 1]);
            assert(before[j + 1] == views[0].queue[k - 1 + (j + 1)]);
        }
    }
}

/// What is queued is played, unchanged, exactly when its turn comes.
pub proof fn law_queued_audio_is_played<S: Sample>(
    views: Seq<JitterView<S>>,
    outs: Seq<Seq<S>>,
    results: Seq<Pull>,
    k: int,
)
    requires
        pulled_in_turn(views, outs, results),
        views[0].started,
        0 <= k < outs.len(),
        k < views[0].queue.len(),
        views[0].queue[k] is Some,
    ensures
        results[k] == Pull::Filled,
        outs[k] == views[0].queue[k]->0,
{
    lemma_queue_moves(views, outs, results, k);
    assert(pulled(views[k], outs[k], results[k], views[k + 1]));
    assert(views[k].queue[0] == views[0].queue[k + 0]);
}

/// The first packet is played after as many blocks of pre-roll as the target depth asks
/// for, and every one of those pulls is priming.
pub proof fn law_first_packet_waits_its_depth<S: Sample>(
    v: JitterView<S>,
    timestamp: u32,
    samples: Seq<S>,
    views: Seq<JitterView<S>>,
    outs: Seq<Seq<S>>,
    results: Seq<Pull>,
)
    requires
        !v.started,
        v.block > 0,
        1 <= v.target < v.queue.len(),
        v.target * v.block < 0x8000_0000,
        pulled_in_turn(views, outs, results),
        views[0] == pushed(v, timestamp, samples).0,
        outs.len() == v.target + 1,
    ensures
        pushed(v, timestamp, samples).1 == Push::Accepted,
        forall|k: int| 0 <= k < v.target ==> #[trigger] results[k] == Pull::Priming,
        results[v.target] == Pull::Filled,
        outs[v.target] == samples,
        views[v.target + 1].stats.lost == v.stats.lost,
{
    lemma_first_is_placed(v, timestamp, samples);
    law_queued_audio_is_played(views, outs, results, v.target);
    lemma_priming(v, views, outs, results, v.target);
    assert(pulled(views[v.target], outs[v.target], results[v.target], views[v.target + 1]));
}

/// A first packet lands at the target depth, alone.
proof fn lemma_first_is_placed<S: Sample>(v: JitterView<S>, timestamp: u32, samples: Seq<S>)
    requires
        !v.started,
        v.block > 0,
        1 <= v.target < v.queue.len(),
        v.target * v.block < 0x8000_0000,
    ensures
        ({
            let r = pushed(v, timestamp, samples);
            &&& r.1 == Push::Accepted
            &&& r.0.started
            &&& !r.0.primed
            &&& r.0.stats.lost == v.stats.lost
            &&& r.0.queue.len() == v.queue.len()
            &&& r.0.queue[v.target] == Some(samples)
            &&& forall|j: int| 0 <= j < v.target ==> #[trigger] r.0.queue[j] is None
        }),
{
    lemma_radix_values();
    let seen = JitterView {
        stats: JitterStats { received: counted(v.stats.received), ..v.stats },
        ..v
    };
    let u = started_at(seen, timestamp);
    let back = v.target * v.block;
    assert(back > 0) by (nonlinear_arith)
        requires
            back == v.target * v.block,
            v.target >= 1,
            v.block > 0,
    ;
    assert(timestamp_gap(timestamp as int, u.playout as int) == back);
    assert(back < span(u)) by (nonlinear_arith)
        requires
            back == v.target * v.block,
            v.target < v.queue.len(),
            v.block > 0,
            span(u) == v.queue.len() * v.block,
    ;
    vstd::arithmetic::div_mod::lemma_mod_multiples_basic(v.target, v.block);
    vstd::arithmetic::div_mod::lemma_div_by_multiple(v.target, v.block);
}

proof fn lemma_priming<S: Sample>(
    v: JitterView<S>,
    views: Seq<JitterView<S>>,
    outs: Seq<Seq<S>>,
    results: Seq<Pull>,
    n: int,
)
    requires
        pulled_in_turn(views, outs, results),
        views[0].started,
        !views[0].primed,
        views[0].stats.lost == v.stats.lost,
        0 <= n <= outs.len(),
        n <= views[0].queue.len(),
        forall|j: int| 0 <= j < n ==> #[trigger] views[0].queue[j] is None,
    ensures
        forall|k: int| 0 <= k < n ==> #[trigger] results[k] == Pull::Priming,
        !views[n].primed,
        views[n].stats.lost == v.stats.lost,
    decreases n,
{
    if n > 0 {
        lemma_priming(v, views, outs, results, n - 1);
        lemma_queue_moves(views, outs, results, n - 1);
        assert(pulled(views[n - 1], outs[n - 1], results[n - 1], views[n]));
        assert(views[n - 1].queue[0] == views[0].queue[n - 1 + 0]);
        assert(views[0].queue[n - 1] is None);
    }
}

/// A packet from far off starts the buffer over, with that packet at the target depth, so
/// audio flows again.
pub proof fn law_restart_flows_again<S: Sample>(v: JitterView<S>, timestamp: u32, samples: Seq<S>)
    requires
        v.started,
        0 <= v.target < v.queue.len(),
        ({
            let gap = timestamp_gap(timestamp as int, v.playout as int);
            gap < -span(v) || gap >= span(v)
        }),
    ensures
        ({
            let r = pushed(v, timestamp, samples);
            &&& r.1 == Push::Resync
            &&& r.0.queue[v.target] == Some(samples)
            &&& r.0.stats.resyncs == counted(v.stats.resyncs)
            &&& !r.0.primed
        }),
{
}

/// Which instant a packet belongs to does not depend on where 32 bits end: shifting every
/// timestamp by the same amount changes nothing but the timestamps.
pub proof fn law_rollover_is_no_event<S: Sample>(v: JitterView<S>, timestamp: u32, samples: Seq<S>, by: u32)
    ensures
        ({
            let shifted = JitterView { playout: timestamp_after(v.playout as int, by as int) as u32, ..v };
            let later = timestamp_after(timestamp as int, by as int) as u32;
            let r = pushed(v, timestamp, samples);
            let s = pushed(shifted, later, samples);
            &&& s.1 == r.1
            &&& s.0.playout == timestamp_after(r.0.playout as int, by as int)
            &&& s.0 == (JitterView { playout: s.0.playout, ..r.0 })
        }),
{
    let p = timestamp_after(v.playout as int, by as int) as u32;
    let t = timestamp_after(timestamp as int, by as int) as u32;
    let back = v.target * v.block;
    lemma_shift_keeps_gap(timestamp as int, v.playout as int, by as int);
    lemma_shift_moves_start(timestamp as int, back, by as int);
    lemma_shift_keeps_gap(timestamp as int, timestamp_after(timestamp as int, -back), by as int);
}

/// Shifting two timestamps keeps their distance.
proof fn lemma_shift_keeps_gap(a: int, b: int, by: int)
    ensures
        timestamp_gap(timestamp_after(a, by), timestamp_after(b, by)) == timestamp_gap(a, b),
{
    let m = 0x1_0000_0000int;
    vstd::arithmetic::div_mod::lemma_sub_mod_noop(a + by, b + by, m);
    assert((a + by) - (b + by) == a - b);
}

/// Shifting a timestamp shifts every timestamp counted from it.
proof fn lemma_shift_moves_start(t: int, back: int, by: int)
    ensures
        timestamp_after(timestamp_after(t, by), -back) == timestamp_after(timestamp_after(t, -back), by),
{
    lemma_after_twice(t, by, -back);
    lemma_after_twice(t, -back, by);
}

/// Two packets that are each accepted leave the same buffer in whichever order they come.
pub proof fn law_order_of_arrival_does_not_matter<S: Sample>(
    v: JitterView<S>,
    t1: u32,
    x1: Seq<S>,
    t2: u32,
    x2: Seq<S>,
)
    requires
        v.started,
        pushed(v, t1, x1).1 == Push::Accepted,
        pushed(pushed(v, t1, x1).0, t2, x2).1 == Push::Accepted,
    ensures
        pushed(v, t2, x2).1 == Push::Accepted,
        pushed(pushed(v, t2, x2).0, t1, x1).1 == Push::Accepted,
        pushed(pushed(v, t2, x2).0, t1, x1).0 == pushed(pushed(v, t1, x1).0, t2, x2).0,
{
    let g1 = timestamp_gap(t1 as int, v.playout as int);
    let g2 = timestamp_gap(t2 as int, v.playout as int);
    lemma_place_in_range(v, g1);
    lemma_place_in_range(v, g2);
    assert(pushed(pushed(v, t2, x2).0, t1, x1).0 =~= pushed(pushed(v, t1, x1).0, t2, x2).0);
}

proof fn lemma_place_in_range<S: Sample>(v: JitterView<S>, gap: int)
    requires
        0 <= gap < span(v),
    ensures
        0 <= gap / v.block < v.queue.len(),
{
    let b = v.block;
    let n = v.queue.len() as int;
    if b <= 0 {
        assert(n * b <= 0) by (nonlinear_arith)
            requires
                n >= 0,
                b <= 0,
        ;
    }
    vstd::arithmetic::div_mod::lemma_fundamental_div_mod(gap, b);
    let q = gap / b;
    assert(0 <= q < n) by (nonlinear_arith)
        requires
            gap == b * q + gap % b,
            0 <= gap % b < b,
            0 <= gap < n * b,
    ;
}

/// A packet that has been accepted is a duplicate when it comes again, and a duplicate
/// changes nothing that is played.
pub proof fn law_nothing_is_mixed_twice<S: Sample>(v: JitterView<S>, timestamp: u32, x: Seq<S>, y: Seq<S>)
    requires
        pushed(v, timestamp, x).1 == Push::Accepted,
        0 <= v.target * v.block,
    ensures
        ({
            let once = pushed(v, timestamp, x).0;
            let twice = pushed(once, timestamp, y);
            &&& twice.1 == Push::Duplicate
            &&& twice.0.queue == once.queue
            &&& twice.0.playout == once.playout
            &&& twice.0.stats.duplicates == counted(once.stats.duplicates)
        }),
{
    let seen = JitterView {
        stats: JitterStats { received: counted(v.stats.received), ..v.stats },
        ..v
    };
    let ready = if seen.started {
        seen
    } else {
        started_at(seen, timestamp)
    };
    lemma_place_in_range(ready, timestamp_gap(timestamp as int, ready.playout as int));
}

/// Packets are counted lost exactly where the gap was concealed: neither pre-roll nor an
/// idle buffer is loss.
pub proof fn law_only_concealment_is_loss<S: Sample>(
    v: JitterView<S>,
    out: Seq<S>,
    r: Pull,
    after: JitterView<S>,
)
    requires
        pulled(v, out, r, after),
    ensures
        r == Pull::Concealed ==> after.stats.lost == counted(v.stats.lost),
        r != Pull::Concealed ==> after.stats.lost == v.stats.lost,
        r == Pull::Priming || r == Pull::Idle ==> silent(out),
{
}

/// Two to a power, as a real number.
pub open spec fn doubled(n: int) -> real
    decreases n,
{
    if n <= 0 {
        1 as real
    } else {
        doubled(n - 1) + doubled(n - 1)
    }
}

/// In exact arithmetic a concealed block is the last good one divided by two for each block
/// lost in a row, and silence from the seventh on.
pub proof fn law_dropout_fades_to_silence<S: Sample>(
    val: spec_fn(S) -> real,
    last_good: Seq<S>,
    run: u32,
    out: Seq<S>,
    kept: Seq<S>,
    i: int,
)
    requires
        exact(val),
        concealed(last_good, run, out, kept),
        0 <= i < last_good.len(),
    ensures
        run < SILENT_RUN ==> val(out[i]) * doubled(run as int) == val(last_good[i]),
        run >= SILENT_RUN ==> val(out[i]) == 0 as real && val(kept[i]) == 0 as real,
{
    if run < SILENT_RUN {
        let g = choose|g: S| #[trigger] halved(run as int, g) && scaled_by(last_good, g, out);
        lemma_halved_value(val, run as int, g);
        let x = val(last_good[i]);
        let y = val(g);
        let d = doubled(run as int);
        assert(product_is(last_good[i], g, out[i]));
        assert((x * y) * d == x) by (nonlinear_arith)
            requires
                y * d == 1 as real,
        ;
    } else {
        assert(whole_is(0, out[i]) && whole_is(0, kept[i]));
    }
}

proof fn lemma_halved_value<S: Sample>(val: spec_fn(S) -> real, n: int, g: S)
    requires
        exact(val),
        n >= 0,
        halved(n, g),
    ensures
        val(g) * doubled(n) == 1 as real,
{
    let (half, steps) = choose|half: S, steps: Seq<S>| #[trigger]
        halvings_by(n, half, steps) && ratio_is(1, 2, half) && steps.last() == g;
    lemma_half_value(val, half);
    lemma_steps_value(val, n, half, steps);
}

proof fn lemma_half_value<S: Sample>(val: spec_fn(S) -> real, half: S)
    requires
        exact(val),
        ratio_is(1, 2, half),
    ensures
        val(half) + val(half) == 1 as real,
{
    let w = choose|w: Ratio<S>| #[trigger] ratio_by(1, 2, w, half);
    assert(val(half) == val(w.above) / val(w.below));
    assert((1 as real) / (2 as real) + (1 as real) / (2 as real) == 1 as real) by (nonlinear_arith);
}

proof fn lemma_steps_value<S: Sample>(val: spec_fn(S) -> real, n: int, half: S, steps: Seq<S>)
    requires
        exact(val),
        n >= 0,
        val(half) + val(half) == 1 as real,
        halvings_by(n, half, steps),
    ensures
        val(steps[n]) * doubled(n) == 1 as real,
    decreases n,
{
    if n > 0 {
        let shorter = steps.take(n);
        assert forall|i: int| 0 <= i < n - 1 implies product_is(#[trigger] shorter[i], half, shorter[i + 1]) by {
            assert(product_is(steps[i], half, steps[i + 1]));
        }
        assert(halvings_by(n - 1, half, shorter));
        lemma_steps_value(val, n - 1, half, shorter);
        assert(product_is(steps[n - 1], half, steps[n - 1 + 1]));
        let x = val(steps[n - 1]);
        let h = val(half);
        let d = doubled(n - 1);
        assert((x * h) * (d + d) == 1 as real) by (nonlinear_arith)
            requires
                x * d == 1 as real,
                h + h == 1 as real,
        ;
    }
}

/// One packet in and one block out keep the number of blocks queued: a sender on the same
/// clock neither fills nor drains the buffer.
pub proof fn law_equal_rates_keep_the_depth<S: Sample>(
    v: JitterView<S>,
    timestamp: u32,
    samples: Seq<S>,
    out: Seq<S>,
    after: JitterView<S>,
)
    requires
        v.started,
        v.queue.len() > 0,
        pushed(v, timestamp, samples).1 == Push::Accepted,
        pulled(pushed(v, timestamp, samples).0, out, Pull::Filled, after),
    ensures
        taken(after.queue, after.queue.len() as int) == taken(v.queue, v.queue.len() as int),
{
    let g = timestamp_gap(timestamp as int, v.playout as int);
    lemma_place_in_range(v, g);
    let u = pushed(v, timestamp, samples).0;
    let n = v.queue.len() as int;
    let k = g / v.block;
    lemma_taken_update(v.queue, k, samples, n);
    lemma_taken_shift(u.queue, n);
}

/// How many of the first `n` places are taken.
pub open spec fn taken<S>(queue: Seq<Option<Seq<S>>>, n: int) -> int
    decreases n,
{
    if n <= 0 {
        0
    } else {
        taken(queue, n - 1) + if queue[n - 1] is Some {
            1int
        } else {
            0
        }
    }
}

proof fn lemma_taken_update<S>(queue: Seq<Option<Seq<S>>>, k: int, x: Seq<S>, n: int)
    requires
        0 <= k < queue.len(),
        queue[k] is None,
        0 <= n <= queue.len(),
    ensures
        taken(queue.update(k, Some(x)), n) == taken(queue, n) + if k < n {
            1int
        } else {
            0
        },
    decreases n,
{
    if n > 0 {
        lemma_taken_update(queue, k, x, n - 1);
    }
}

proof fn lemma_taken_shift<S>(queue: Seq<Option<Seq<S>>>, n: int)
    requires
        1 <= n <= queue.len(),
        queue[0] is Some,
    ensures
        taken(queue.drop_first().push(None), n - 1) == taken(queue, n) - 1,
        n == queue.len() ==> taken(queue.drop_first().push(None), n) == taken(queue, n) - 1,
    decreases n,
{
    let moved = queue.drop_first().push(None);
    if n > 1 {
        lemma_taken_shift(queue, n - 1);
        assert(moved[n - 2] == queue[n - 1]);
    } else {
        assert(taken(queue, 0) == 0);
    }
    if n == queue.len() {
        assert(moved[n - 1] is None);
    }
}

} // verus!
