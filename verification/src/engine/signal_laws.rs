//! What a block of mixing does to the signals, as real numbers: from what the microphones pick
//! up to what every key is fed.

use vstd::prelude::*;

use crate::engine::laws::{key_wired, wired};
use crate::engine::limiter::block_limited;
use crate::engine::plan::{
    block_mixed, bus_inputs, bus_sample, contributed, contributed_by, fade_by, fade_is, fade_step, faded_is, faded_run,
    fed, fed_by, input_gain_now, input_staged, listen_gain_now, minus_own, mix_minus_by, same_settings, scaled_by,
    stream_mixed, talks_onto, EngineView, FadeSteps, KeyRt, Source,
};
use crate::engine::rows::{chunk, lemma_row_inside};
use crate::sample::{
    difference_is, exact, law_peak_is_the_largest, lemma_total_exact, product_is, real_total, size, whole_is, Sample,
};

verus! {

/// What an endpoint's microphone gives to the mix: its input at its gain, and nothing when it
/// is muted.
pub open spec fn picked_up<S>(val: spec_fn(S) -> real, v: EngineView<S>, mic_in: Seq<S>, e: int, i: int) -> real {
    if v.endpoints[e].input_muted {
        0 as real
    } else {
        val(mic_in[e * v.block + i]) * val(v.endpoints[e].input_gain)
    }
}

/// In exact arithmetic a live microphone is its input at its gain, and a muted one silence.
pub proof fn law_microphone_is_heard_at_its_gain<S: Sample>(
    val: spec_fn(S) -> real,
    before: EngineView<S>,
    mic_in: Seq<S>,
    after: EngineView<S>,
    e: int,
    i: int,
)
    requires
        exact(val),
        before.well_formed(),
        after.well_formed(),
        mic_in.len() == before.endpoints.len() * before.block,
        block_mixed(before, mic_in, after),
        0 <= e < before.endpoints.len(),
        0 <= i < before.block,
    ensures
        val(after.mic[e * before.block + i]) == picked_up(val, before, mic_in, e, i),
        before.endpoints[e].input_muted ==> val(after.mic[e * before.block + i]) == 0 as real,
        !before.endpoints[e].input_muted ==> val(after.mic[e * before.block + i]) == val(
            mic_in[e * before.block + i],
        ) * val(before.endpoints[e].input_gain),
{
    let src = chunk(mic_in, e, before.block);
    let dst = after.mic_row(e);
    lemma_row_inside(e, before.endpoints.len() as int, before.block);
    assert(input_staged(before.endpoints[e], src, dst));
    let g = choose|g: S| #[trigger] scaled_by(src, g, dst) && input_gain_now(before.endpoints[e], g);
    assert(product_is(src[i], g, dst[i]));
    if before.endpoints[e].input_muted {
        lemma_nothing(val(src[i]));
    }
}

proof fn lemma_nothing(x: real)
    by (nonlinear_arith)
    ensures
        x * (0 as real) == 0 as real,
        (0 as real) * x == 0 as real,
        x * (1 as real) == x,
{
}

/// Where a talk fade stands after `n` samples: up towards one while the key is held, down
/// towards nothing once it is released, by `step` on each sample.
pub open spec fn fade_position(from: real, held: bool, step: real, n: int) -> real {
    let moved = n as real * step;
    if held {
        if from + moved < 1 as real {
            from + moved
        } else {
            1 as real
        }
    } else {
        if from - moved > 0 as real {
            from - moved
        } else {
            0 as real
        }
    }
}

proof fn lemma_fade_on(from: real, held: bool, step: real, n: int)
    by (nonlinear_arith)
    requires
        n >= 0,
    ensures
        (n + 1) as real * step == n as real * step + step,
        step >= 0 as real ==> n as real * step >= 0 as real,
        0 as real * step == 0 as real,
{
}

/// In exact arithmetic a key that can talk contributes its microphone, faded sample by sample
/// and trimmed, and its fade ends the block where that many samples have brought it.
pub proof fn law_contribution_is_the_faded_microphone<S: Sample>(
    val: spec_fn(S) -> real,
    k: KeyRt<S>,
    mic: Seq<S>,
    step: S,
    ramp: S,
    row: Seq<S>,
)
    requires
        exact(val),
        contributed(k, mic, step, ramp, row),
        k.can_talk,
        0 as real <= val(k.ramp) <= 1 as real,
        val(step) >= 0 as real,
    ensures
        row.len() == mic.len(),
        forall|i: int|
            0 <= i < row.len() ==> val(#[trigger] row[i]) == val(mic[i]) * fade_position(
                val(k.ramp),
                k.talk_on,
                val(step),
                i + 1,
            ) * val(k.share_trim),
        val(ramp) == fade_position(val(k.ramp), k.talk_on, val(step), mic.len() as int),
{
    let (target, steady) = choose|target: S, steady: bool| #[trigger]
        contributed_by(k, mic, step, target, steady, ramp, row);
    let one = if k.talk_on {
        1 as real
    } else {
        0 as real
    };
    assert(val(target) == one);
    if steady {
        assert forall|i: int| 0 <= i < row.len() implies val(#[trigger] row[i]) == val(mic[i]) * fade_position(
            val(k.ramp),
            k.talk_on,
            val(step),
            i + 1,
        ) * val(k.share_trim) by {
            lemma_fade_on(val(k.ramp), k.talk_on, val(step), i + 1);
            assert(fade_position(val(k.ramp), k.talk_on, val(step), i + 1) == one);
            lemma_nothing(val(mic[i]));
            lemma_nothing(val(k.share_trim));
            if k.talk_on {
                assert(product_is(mic[i], k.share_trim, row[i]));
            } else {
                assert(whole_is(0, row[i]));
            }
        }
        lemma_fade_on(val(k.ramp), k.talk_on, val(step), mic.len() as int);
    } else {
        let ramps = choose|ramps: Seq<S>| #[trigger]
            faded_run(mic, ramps, target, step, k.share_trim, row) && ramps[0] == k.ramp && ramps.last() == ramp;
        assert forall|i: int| 0 <= i < row.len() implies val(#[trigger] row[i]) == val(mic[i]) * fade_position(
            val(k.ramp),
            k.talk_on,
            val(step),
            i + 1,
        ) * val(k.share_trim) by {
            lemma_ramp_walk(val, k, mic, step, target, ramps, row, i + 1);
            assert(fade_step(mic[i], ramps[i], target, step, k.share_trim, ramps[i + 1], row[i]));
            assert(faded_is(mic[i], ramps[i + 1], k.share_trim, row[i]));
            let x = choose|x: S| #[trigger]
                product_is(mic[i], ramps[i + 1], x) && product_is(x, k.share_trim, row[i]);
            assert(product_is(mic[i], ramps[i + 1], x));
        }
        lemma_ramp_walk(val, k, mic, step, target, ramps, row, mic.len() as int);
    }
}

proof fn lemma_ramp_walk<S: Sample>(
    val: spec_fn(S) -> real,
    k: KeyRt<S>,
    mic: Seq<S>,
    step: S,
    target: S,
    ramps: Seq<S>,
    row: Seq<S>,
    n: int,
)
    requires
        exact(val),
        faded_run(mic, ramps, target, step, k.share_trim, row),
        ramps[0] == k.ramp,
        val(target) == (if k.talk_on {
            1 as real
        } else {
            0 as real
        }),
        0 as real <= val(k.ramp) <= 1 as real,
        val(step) >= 0 as real,
        0 <= n <= mic.len(),
    ensures
        val(ramps[n]) == fade_position(val(k.ramp), k.talk_on, val(step), n),
    decreases n,
{
    lemma_fade_on(val(k.ramp), k.talk_on, val(step), n);
    if n > 0 {
        lemma_ramp_walk(val, k, mic, step, target, ramps, row, n - 1);
        lemma_fade_on(val(k.ramp), k.talk_on, val(step), n - 1);
        let i = n - 1;
        assert(fade_step(mic[i], ramps[i], target, step, k.share_trim, ramps[i + 1], row[i]));
        assert(fade_is(ramps[i], target, step, ramps[n]));
        let w = choose|w: FadeSteps<S>| #[trigger] fade_by(ramps[i], target, step, w, ramps[n]);
        assert(fade_by(ramps[i], target, step, w, ramps[n]));
    }
}

/// What stream `t` puts into the mix at sample `i`: its endpoint's microphone, faded by its
/// talk key and trimmed; nothing if it cannot talk.
pub open spec fn voice<S>(val: spec_fn(S) -> real, v: EngineView<S>, mic_in: Seq<S>, t: int, i: int) -> real {
    let k = v.keys[t];
    if k.can_talk {
        picked_up(val, v, mic_in, k.endpoint as int, i) * fade_position(
            val(k.ramp),
            k.talk_on,
            val(v.ramp_step),
            i + 1,
        ) * val(k.share_trim)
    } else {
        0 as real
    }
}

/// Whether every fade stands between nothing and one, and moves forwards.
pub open spec fn fades_sane<S>(val: spec_fn(S) -> real, v: EngineView<S>) -> bool {
    &&& val(v.ramp_step) >= 0 as real
    &&& forall|t: int| 0 <= t < v.keys.len() ==> 0 as real <= val((#[trigger] v.keys[t]).ramp) <= 1 as real
}

/// In exact arithmetic every contribution is the voice of its stream, and fades stay between
/// nothing and one.
pub proof fn law_contributions_are_voices<S: Sample>(
    val: spec_fn(S) -> real,
    before: EngineView<S>,
    mic_in: Seq<S>,
    after: EngineView<S>,
    t: int,
)
    requires
        exact(val),
        before.well_formed(),
        after.well_formed(),
        fades_sane(val, before),
        mic_in.len() == before.endpoints.len() * before.block,
        block_mixed(before, mic_in, after),
        0 <= t < before.keys.len(),
    ensures
        forall|i: int|
            0 <= i < before.block ==> val(#[trigger] after.share_row(t)[i]) == voice(val, before, mic_in, t, i),
        0 as real <= val(after.keys[t].ramp) <= 1 as real,
        before.keys[t].can_talk ==> val(after.keys[t].ramp) == fade_position(
            val(before.keys[t].ramp),
            before.keys[t].talk_on,
            val(before.ramp_step),
            before.block,
        ),
{
    let k = before.keys[t];
    let e = k.endpoint as int;
    let mic = after.mic_row(e);
    let row = after.share_row(t);
    assert(before.key_well_formed(k));
    lemma_row_inside(e, before.endpoints.len() as int, before.block);
    lemma_row_inside(t, before.keys.len() as int, before.block);
    assert(contributed(k, mic, before.ramp_step, after.keys[t].ramp, row));
    if k.can_talk {
        law_contribution_is_the_faded_microphone(val, k, mic, before.ramp_step, after.keys[t].ramp, row);
        lemma_fade_on(val(k.ramp), k.talk_on, val(before.ramp_step), before.block);
    }
    assert forall|i: int| 0 <= i < before.block implies val(#[trigger] after.share_row(t)[i]) == voice(
        val,
        before,
        mic_in,
        t,
        i,
    ) by {
        if k.can_talk {
            law_microphone_is_heard_at_its_gain(val, before, mic_in, after, e, i);
            assert(mic[i] == after.mic[e * before.block + i]);
            assert(val(row[i]) == val(mic[i]) * fade_position(val(k.ramp), k.talk_on, val(before.ramp_step), i + 1)
                * val(k.share_trim));
        } else {
            assert(whole_is(0, row[i]));
        }
    }
}

/// The voices on bus `b` at sample `i`, of the first `n` streams, but for stream `s`.
pub open spec fn others<S>(
    val: spec_fn(S) -> real,
    v: EngineView<S>,
    mic_in: Seq<S>,
    b: usize,
    i: int,
    s: int,
    n: int,
) -> real
    decreases n,
{
    if n <= 0 {
        0 as real
    } else if n - 1 != s && v.keys[n - 1].contributes_to == Some(b) {
        others(val, v, mic_in, b, i, s, n - 1) + voice(val, v, mic_in, n - 1, i)
    } else {
        others(val, v, mic_in, b, i, s, n - 1)
    }
}

/// In exact arithmetic a bus carries the voices of every stream that talks onto it.
pub proof fn law_bus_carries_every_voice<S: Sample>(
    val: spec_fn(S) -> real,
    before: EngineView<S>,
    mic_in: Seq<S>,
    after: EngineView<S>,
    b: usize,
    i: int,
)
    requires
        exact(val),
        before.well_formed(),
        after.well_formed(),
        fades_sane(val, before),
        mic_in.len() == before.endpoints.len() * before.block,
        block_mixed(before, mic_in, after),
        b < before.bus_ids.len(),
        0 <= i < before.block,
    ensures
        val(after.bus_row(b as int)[i]) == others(val, before, mic_in, b, i, -1, before.keys.len() as int),
{
    let n = after.keys.len() as int;
    assert(bus_sample(after, b as int, i, after.bus_row(b as int)[i]));
    lemma_total_exact(
        val,
        bus_inputs(after.keys, after.shares, after.block, b as int, i, n),
        after.bus_row(b as int)[i],
    );
    lemma_voices_total(val, before, mic_in, after, b, i, -1, n);
}

proof fn lemma_voices_total<S: Sample>(
    val: spec_fn(S) -> real,
    before: EngineView<S>,
    mic_in: Seq<S>,
    after: EngineView<S>,
    b: usize,
    i: int,
    s: int,
    n: int,
)
    requires
        exact(val),
        before.well_formed(),
        after.well_formed(),
        fades_sane(val, before),
        mic_in.len() == before.endpoints.len() * before.block,
        block_mixed(before, mic_in, after),
        0 <= i < before.block,
        0 <= n <= before.keys.len(),
    ensures
        real_total(val, bus_inputs(after.keys, after.shares, after.block, b as int, i, n)) == others(
            val,
            before,
            mic_in,
            b,
            i,
            s,
            n,
        ) + if 0 <= s < n && before.keys[s].contributes_to == Some(b) {
            voice(val, before, mic_in, s, i)
        } else {
            0 as real
        },
    decreases n,
{
    if n > 0 {
        lemma_voices_total(val, before, mic_in, after, b, i, s, n - 1);
        let rest = bus_inputs(after.keys, after.shares, after.block, b as int, i, n - 1);
        assert(same_settings(before.keys[n - 1], after.keys[n - 1]));
        if talks_onto(after.keys[n - 1], b as int) {
            let x = chunk(after.shares, n - 1, after.block)[i];
            assert(rest.push(x).drop_last() =~= rest);
            assert(rest.push(x).last() == x);
            law_contributions_are_voices(val, before, mic_in, after, n - 1);
            assert(x == after.share_row(n - 1)[i]);
        }
    }
}

/// The gain on a listen path: nothing when muted.
pub open spec fn listening<S>(val: spec_fn(S) -> real, k: KeyRt<S>) -> real {
    if k.listen_muted {
        0 as real
    } else {
        val(k.listen_gain)
    }
}

/// What stream `s` is fed at sample `i`: on a bus, the voices of everyone else; on a direct
/// path, the far end's voice; without a far end, nothing.
pub open spec fn due<S>(val: spec_fn(S) -> real, v: EngineView<S>, mic_in: Seq<S>, s: int, i: int) -> real {
    match v.keys[s].source {
        Source::Bus(b) => others(val, v, mic_in, b, i, s, v.keys.len() as int) * listening(val, v.keys[s]),
        Source::Direct(Some(t)) => voice(val, v, mic_in, t as int, i) * listening(val, v.keys[s]),
        Source::Direct(None) => 0 as real,
    }
}

/// In exact arithmetic every key is fed everyone else's voice on its bus, or the far end's, at
/// its listen gain; and what comes out is that, through the key's limiter as it stood.
pub proof fn law_every_key_hears_everyone_else<S: Sample>(
    val: spec_fn(S) -> real,
    before: EngineView<S>,
    mic_in: Seq<S>,
    after: EngineView<S>,
    s: int,
)
    requires
        exact(val),
        before.well_formed(),
        after.well_formed(),
        wired(before),
        fades_sane(val, before),
        mic_in.len() == before.endpoints.len() * before.block,
        block_mixed(before, mic_in, after),
        0 <= s < before.keys.len(),
    ensures
        exists|feed: Seq<S>| #[trigger]
            block_limited(before.keys[s].limiter, feed, after.keys[s].limiter, after.out_row(s)) && feed.len()
                == before.block && (forall|i: int|
                0 <= i < before.block ==> val(#[trigger] feed[i]) == due(val, before, mic_in, s, i)),
{
    let k = before.keys[s];
    let n = after.keys.len() as int;
    assert(stream_mixed(after, s, k));
    let feed = choose|feed: Seq<S>| #[trigger]
        fed(after, s, k, feed) && block_limited(k.limiter, feed, after.keys[s].limiter, after.out_row(s));
    let g = choose|g: S| #[trigger] fed_by(after, s, k, g, feed);
    assert(listen_gain_now(k, g));
    assert(val(g) == listening(val, k));
    assert(key_wired(k));
    assert(before.key_well_formed(k));
    lemma_row_inside(s, n, after.block);
    law_contributions_are_voices(val, before, mic_in, after, s);
    assert forall|i: int| 0 <= i < before.block implies val(#[trigger] feed[i]) == due(val, before, mic_in, s, i) by {
        match k.source {
            Source::Bus(b) => {
                let bus = after.bus_row(b as int);
                let own = after.share_row(s);
                lemma_row_inside(b as int, after.bus_ids.len() as int, after.block);
                assert(mix_minus_by(bus, own, g, feed));
                assert(bus_sample(after, b as int, i, after.bus_row(b as int)[i]));
                lemma_total_exact(val, bus_inputs(after.keys, after.shares, after.block, b as int, i, n), bus[i]);
                lemma_voices_total(val, before, mic_in, after, b, i, s, n);
                assert(minus_own(bus[i], own[i], g, feed[i]));
                let d = choose|d: S| #[trigger] difference_is(bus[i], own[i], d) && product_is(d, g, feed[i]);
                assert(val(own[i]) == voice(val, before, mic_in, s, i));
            },
            Source::Direct(Some(t)) => {
                let far = after.share_row(t as int);
                lemma_row_inside(t as int, n, after.block);
                law_contributions_are_voices(val, before, mic_in, after, t as int);
                assert(product_is(far[i], g, feed[i]));
                assert(val(after.share_row(t as int)[i]) == voice(val, before, mic_in, t as int, i));
            },
            Source::Direct(None) => {
                assert(whole_is(0, feed[i]));
            },
        }
    }
}

/// In exact arithmetic every fade stays between nothing and one.
pub proof fn law_blocks_keep_fades_sane<S: Sample>(
    val: spec_fn(S) -> real,
    before: EngineView<S>,
    mic_in: Seq<S>,
    after: EngineView<S>,
)
    requires
        exact(val),
        before.well_formed(),
        after.well_formed(),
        fades_sane(val, before),
        mic_in.len() == before.endpoints.len() * before.block,
        block_mixed(before, mic_in, after),
    ensures
        fades_sane(val, after),
{
    assert forall|t: int| 0 <= t < after.keys.len() implies 0 as real <= val((#[trigger] after.keys[t]).ramp)
        <= 1 as real by {
        law_contributions_are_voices(val, before, mic_in, after, t);
    }
}

/// Whether `peak` is the largest magnitude in row `row` of a buffer of rows of `width`, and
/// nothing where all is silent.
pub open spec fn loudest<S>(val: spec_fn(S) -> real, buf: Seq<S>, row: int, width: int, peak: S) -> bool {
    &&& forall|i: int| 0 <= i < width ==> size(val(#[trigger] buf[row * width + i])) <= val(peak)
    &&& val(peak) == 0 as real || exists|i: int|
        0 <= i < width && size(val(#[trigger] buf[row * width + i])) == val(peak)
}

proof fn lemma_loudest<S: Sample>(val: spec_fn(S) -> real, buf: Seq<S>, row: int, count: int, width: int, peak: S)
    requires
        exact(val),
        buf.len() == count * width,
        0 <= row < count,
        0 <= width,
        crate::sample::peak_is(chunk(buf, row, width), peak),
    ensures
        loudest(val, buf, row, width, peak),
{
    let xs = chunk(buf, row, width);
    lemma_row_inside(row, count, width);
    law_peak_is_the_largest(val, xs, peak);
    assert forall|i: int| 0 <= i < width implies size(val(#[trigger] buf[row * width + i])) <= val(peak) by {
        assert(xs[i] == buf[row * width + i]);
    }
    if val(peak) != 0 as real {
        let i = choose|i: int| 0 <= i < xs.len() && size(val(#[trigger] xs[i])) == val(peak);
        assert(xs[i] == buf[row * width + i]);
    }
}

/// In exact arithmetic the meters read the loudest sample of every microphone, after its gain,
/// of every bus, and of every stream as it comes out.
pub proof fn law_meters_read_the_loudest<S: Sample>(
    val: spec_fn(S) -> real,
    before: EngineView<S>,
    mic_in: Seq<S>,
    after: EngineView<S>,
)
    requires
        exact(val),
        before.well_formed(),
        after.well_formed(),
        block_mixed(before, mic_in, after),
    ensures
        forall|e: int|
            0 <= e < before.endpoints.len() ==> loudest(
                val,
                after.mic,
                e,
                before.block,
                #[trigger] after.input_peaks[e],
            ),
        forall|b: int|
            0 <= b < before.bus_ids.len() ==> loudest(val, after.bus, b, before.block, #[trigger] after.bus_peaks[b]),
        forall|s: int|
            0 <= s < before.keys.len() ==> loudest(val, after.out, s, before.block, #[trigger] after.output_peaks[s]),
{
    assert forall|e: int| 0 <= e < before.endpoints.len() implies loudest(
        val,
        after.mic,
        e,
        before.block,
        #[trigger] after.input_peaks[e],
    ) by {
        let row = after.mic_row(e);
        lemma_loudest(val, after.mic, e, before.endpoints.len() as int, before.block, after.input_peaks[e]);
    }
    assert forall|b: int| 0 <= b < before.bus_ids.len() implies loudest(
        val,
        after.bus,
        b,
        before.block,
        #[trigger] after.bus_peaks[b],
    ) by {
        lemma_loudest(val, after.bus, b, before.bus_ids.len() as int, before.block, after.bus_peaks[b]);
    }
    assert forall|s: int| 0 <= s < before.keys.len() implies loudest(
        val,
        after.out,
        s,
        before.block,
        #[trigger] after.output_peaks[s],
    ) by {
        assert(stream_mixed(after, s, before.keys[s]));
        lemma_loudest(val, after.out, s, before.keys.len() as int, before.block, after.output_peaks[s]);
    }
}

/// A block leaves every setting alone: only what sounds, and the fades and limiters that follow
/// it, have changed.
pub proof fn law_blocks_change_no_setting<S: Sample>(
    before: EngineView<S>,
    mic_in: Seq<S>,
    after: EngineView<S>,
    s: int,
)
    requires
        block_mixed(before, mic_in, after),
        0 <= s < before.keys.len(),
    ensures
        after.endpoints == before.endpoints,
        after.endpoint_ids == before.endpoint_ids,
        after.bus_ids == before.bus_ids,
        after.block == before.block,
        after.ramp_step == before.ramp_step,
        after.keys.len() == before.keys.len(),
        after.keys[s].endpoint == before.keys[s].endpoint,
        after.keys[s].slot == before.keys[s].slot,
        after.keys[s].source == before.keys[s].source,
        after.keys[s].contributes_to == before.keys[s].contributes_to,
        after.keys[s].share_trim == before.keys[s].share_trim,
        after.keys[s].listen_gain == before.keys[s].listen_gain,
        after.keys[s].listen_muted == before.keys[s].listen_muted,
        after.keys[s].can_talk == before.keys[s].can_talk,
        after.keys[s].talk_on == before.keys[s].talk_on,
{
    assert(same_settings(before.keys[s], after.keys[s]));
}

} // verus!
