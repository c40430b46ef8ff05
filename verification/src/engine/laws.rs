//! What holds of the engine as a whole.

use vstd::prelude::*;

use crate::config::coherence::{coherent, coherent_keys, reachable};
use crate::config::model::{lemma_endpoint_position, lemma_partyline_position, ConfigView, TargetView};
use crate::engine::limiter::{
    block_limited, law_block_stays_within, law_limiter_holds, law_new_limiter_is_sane, limited, limited_by,
    limited_run, limiter_fresh, limiter_sane, LimitSteps, Limiter, DEFAULT_RELEASE_MS,
    DEFAULT_THRESHOLD_MILLIONTHS,
};
use crate::engine::order::{lemma_at_rank, lemma_rank_inside, lemma_rank_order, stream_of};
use crate::engine::plan::{
    applied, block_mixed, bus_inputs, bus_sample, call_position, compiled, compiled_at, contributed,
    contributed_by, fade_by, fade_is, fade_step, faded_run, fed, fed_by, input_gain_now, input_staged,
    key_compiled, lemma_call_position, lemma_stream_position, limiter_default, listen_gain_now, minus_own, offset,
    route_before, same_settings, scaled_by, silent, stream_mixed, streams_ordered, talks_onto, Command, EngineView,
    FadeSteps, KeyRt, Source,
};
use crate::engine::rows::{chunk, lemma_row_inside};
use crate::sample::{
    difference_is, equals_is, exact, lemma_total_exact, product_is, ratio_by, ratio_is, real_total, size,
    sum_is, total_by, total_is, whole_is, Ratio, Sample,
};

verus! {

/// The sum of what every stream but `s`, of the first `n`, puts onto sample `i` of bus `b`.
pub open spec fn others_total<S>(
    val: spec_fn(S) -> real,
    v: EngineView<S>,
    b: int,
    i: int,
    s: int,
    n: int,
) -> real
    decreases n,
{
    if n <= 0 {
        0 as real
    } else if n - 1 != s && talks_onto(v.keys[n - 1], b) {
        others_total(val, v, b, i, s, n - 1) + val(chunk(v.shares, n - 1, v.block)[i])
    } else {
        others_total(val, v, b, i, s, n - 1)
    }
}

proof fn lemma_others_total<S: Sample>(val: spec_fn(S) -> real, v: EngineView<S>, b: int, i: int, s: int, n: int)
    ensures
        real_total(val, bus_inputs(v.keys, v.shares, v.block, b, i, n)) == others_total(val, v, b, i, s, n) + if 0
            <= s < n && talks_onto(v.keys[s], b) {
            val(chunk(v.shares, s, v.block)[i])
        } else {
            0 as real
        },
    decreases n,
{
    if n > 0 {
        lemma_others_total(val, v, b, i, s, n - 1);
        let rest = bus_inputs(v.keys, v.shares, v.block, b, i, n - 1);
        if talks_onto(v.keys[n - 1], b) {
            let x = chunk(v.shares, n - 1, v.block)[i];
            assert(rest.push(x).drop_last() =~= rest);
            assert(rest.push(x).last() == x);
        }
    }
}

/// The wiring of one key: where it can talk it talks onto the bus that it listens to, and
/// otherwise onto none.
pub open spec fn key_wired<S>(k: KeyRt<S>) -> bool {
    match k.source {
        Source::Bus(b) => k.contributes_to == if k.can_talk {
            Some(b)
        } else {
            None
        },
        Source::Direct(_) => k.contributes_to is None,
    }
}

/// The wiring of an engine: every key is wired, and no two keys of an endpoint listen to
/// the same bus.
pub open spec fn wired<S>(v: EngineView<S>) -> bool {
    &&& forall|s: int| 0 <= s < v.keys.len() ==> key_wired(#[trigger] v.keys[s])
    &&& forall|s: int, t: int|
        0 <= s < v.keys.len() && 0 <= t < v.keys.len() && s != t && (#[trigger] v.keys[s]).endpoint == (
        #[trigger] v.keys[t]).endpoint && v.keys[s].source is Bus ==> v.keys[s].source != v.keys[t].source
}

/// A compiled configuration is wired.
pub proof fn law_compiled_is_wired<S: Sample>(c: ConfigView, v: EngineView<S>)
    requires
        coherent(c),
        compiled(c, v),
        c.partylines.len() <= usize::MAX,
    ensures
        wired(v),
{
    let rate = choose|rate: S| #[trigger] compiled_at(c, rate, v);
    assert forall|s: int| 0 <= s < v.keys.len() implies key_wired(#[trigger] v.keys[s]) by {
        let (i, k) = lemma_locate(c, s, c.endpoints.len() as int);
        assert(key_compiled(c, i, k, rate, v.keys[s]));
    }
    assert forall|s: int, t: int|
        0 <= s < v.keys.len() && 0 <= t < v.keys.len() && s != t && (#[trigger] v.keys[s]).endpoint == (
        #[trigger] v.keys[t]).endpoint && v.keys[s].source is Bus implies v.keys[s].source
        != v.keys[t].source by {
        let (i, k) = lemma_locate(c, s, c.endpoints.len() as int);
        let (j, m) = lemma_locate(c, t, c.endpoints.len() as int);
        let ks = c.endpoints[i].keys[k];
        let kt = c.endpoints[j].keys[m];
        assert(key_compiled(c, i, k, rate, v.keys[s]));
        assert(key_compiled(c, j, m, rate, v.keys[t]));
        assert(i == j);
        assert(coherent_keys(c, c.endpoints[i]));
        assert(reachable(c, c.endpoints[i], ks));
        assert(reachable(c, c.endpoints[i], kt));
        if kt.target is Partyline {
            lemma_partyline_position(c.partylines, ks.target->Partyline_0, 0);
            lemma_partyline_position(c.partylines, kt.target->Partyline_0, 0);
            assert(ks.target != kt.target);
        }
    }
}

/// No command changes the wiring.
pub proof fn law_commands_keep_the_wiring<S: Sample>(before: EngineView<S>, cmd: Command, after: EngineView<S>)
    requires
        wired(before),
        applied(before, cmd, after),
    ensures
        wired(after),
{
    match cmd {
        Command::SetTalk { endpoint, slot, .. } | Command::SetListenLevel { endpoint, slot, .. }
        | Command::SetListenMute { endpoint, slot, .. } => {
            lemma_stream_position(before.keys, endpoint as int, slot, 0);
        },
        _ => {},
    }
    lemma_wiring_kept(before, after);
}

/// No block changes the wiring.
pub proof fn law_blocks_keep_the_wiring<S: Sample>(before: EngineView<S>, mic_in: Seq<S>, after: EngineView<S>)
    requires
        wired(before),
        block_mixed(before, mic_in, after),
    ensures
        wired(after),
{
    assert forall|s: int| 0 <= s < before.keys.len() implies same_wires(before.keys[s], #[trigger] after.keys[s]) by {
        assert(same_settings(before.keys[s], after.keys[s]));
    }
    lemma_wiring_kept(before, after);
}

/// Whether two keys are wired alike.
pub open spec fn same_wires<S>(a: KeyRt<S>, b: KeyRt<S>) -> bool {
    a.endpoint == b.endpoint && a.source == b.source && a.contributes_to == b.contributes_to && a.can_talk
        == b.can_talk
}

pub proof fn lemma_wiring_kept<S: Sample>(before: EngineView<S>, after: EngineView<S>)
    requires
        wired(before),
        after.keys.len() == before.keys.len(),
        forall|s: int| 0 <= s < before.keys.len() ==> same_wires(before.keys[s], #[trigger] after.keys[s]),
    ensures
        wired(after),
{
    assert forall|s: int| 0 <= s < after.keys.len() implies key_wired(#[trigger] after.keys[s]) by {
        assert(same_wires(before.keys[s], after.keys[s]));
        assert(key_wired(before.keys[s]));
    }
    assert forall|s: int, t: int|
        0 <= s < after.keys.len() && 0 <= t < after.keys.len() && s != t && (#[trigger] after.keys[s]).endpoint == (
        #[trigger] after.keys[t]).endpoint && after.keys[s].source is Bus implies after.keys[s].source
        != after.keys[t].source by {
        assert(same_wires(before.keys[s], after.keys[s]));
        assert(same_wires(before.keys[t], after.keys[t]));
        assert(before.keys[s].endpoint == before.keys[t].endpoint);
    }
}

/// `feed` is what reaches the limiter of stream `s`, at the listen gain `g`.
pub open spec fn heard<S: Sample>(before: EngineView<S>, after: EngineView<S>, s: int, g: S, feed: Seq<S>) -> bool {
    &&& feed.len() == before.block
    &&& listen_gain_now(before.keys[s], g)
    &&& block_limited(before.keys[s].limiter, feed, after.keys[s].limiter, after.out_row(s))
}

/// Mix-minus: in exact arithmetic, what a key on a bus hears in a block is the sum of what
/// everyone else put onto that bus, at the key's listen gain, through its limiter. Its own
/// contribution is not in it.
pub proof fn law_mix_minus<S: Sample>(
    val: spec_fn(S) -> real,
    before: EngineView<S>,
    mic_in: Seq<S>,
    after: EngineView<S>,
    s: int,
    b: usize,
)
    requires
        exact(val),
        before.well_formed(),
        after.well_formed(),
        wired(before),
        block_mixed(before, mic_in, after),
        0 <= s < before.keys.len(),
        before.keys[s].source == Source::Bus(b),
    ensures
        exists|g: S, feed: Seq<S>| #[trigger]
            heard(before, after, s, g, feed) && (forall|i: int|
                0 <= i < before.block ==> val(#[trigger] feed[i]) == others_total(
                    val,
                    after,
                    b as int,
                    i,
                    s,
                    after.keys.len() as int,
                ) * val(g)),
{
    let k = before.keys[s];
    let n = after.keys.len() as int;
    assert(stream_mixed(after, s, k));
    let feed = choose|feed: Seq<S>| #[trigger]
        fed(after, s, k, feed) && block_limited(k.limiter, feed, after.keys[s].limiter, after.out_row(s));
    let g = choose|g: S| #[trigger] fed_by(after, s, k, g, feed);
    assert(heard(before, after, s, g, feed));
    assert(same_settings(k, after.keys[s]));
    assert(key_wired(k));
    assert(before.key_well_formed(k));
    let bus = after.bus_row(b as int);
    let own = after.share_row(s);
    lemma_row_inside(s, n, after.block);
    lemma_row_inside(b as int, after.bus_ids.len() as int, after.block);
    assert(contributed(k, after.mic_row(k.endpoint as int), before.ramp_step, after.keys[s].ramp, own));
    assert forall|i: int| 0 <= i < before.block implies val(#[trigger] feed[i]) == others_total(
        val,
        after,
        b as int,
        i,
        s,
        n,
    ) * val(g) by {
        assert(bus_sample(after, b as int, i, after.bus_row(b as int)[i]));
        lemma_total_exact(val, bus_inputs(after.keys, after.shares, after.block, b as int, i, n), bus[i]);
        lemma_others_total(val, after, b as int, i, s, n);
        assert(minus_own(bus[i], own[i], g, feed[i]));
        let d = choose|d: S| #[trigger] difference_is(bus[i], own[i], d) && product_is(d, g, feed[i]);
        if !k.can_talk {
            assert(whole_is(0, own[i]));
        }
    }
}

/// In exact arithmetic a mix that never exceeds the threshold comes out as it is, where the
/// limiter is at rest.
pub proof fn law_quiet_block_passes<S: Sample>(
    val: spec_fn(S) -> real,
    before: Limiter<S>,
    xs: Seq<S>,
    after: Limiter<S>,
    ys: Seq<S>,
)
    requires
        exact(val),
        limiter_sane(val, before),
        block_limited(before, xs, after, ys),
        val(before.gain) == 1 as real,
        forall|i: int| 0 <= i < xs.len() ==> size(val(#[trigger] xs[i])) <= val(before.threshold),
    ensures
        ys.len() == xs.len(),
        forall|i: int| 0 <= i < ys.len() ==> val(#[trigger] ys[i]) == val(xs[i]),
        val(after.gain) == 1 as real,
{
    let states = choose|states: Seq<Limiter<S>>| #[trigger]
        limited_run(xs, states, ys) && states[0] == before && states.last() == after;
    lemma_quiet_run(val, xs, states, ys, xs.len() as int);
}

proof fn lemma_quiet_run<S: Sample>(
    val: spec_fn(S) -> real,
    xs: Seq<S>,
    states: Seq<Limiter<S>>,
    ys: Seq<S>,
    n: int,
)
    requires
        exact(val),
        limited_run(xs, states, ys),
        limiter_sane(val, states[0]),
        val(states[0].gain) == 1 as real,
        forall|i: int| 0 <= i < xs.len() ==> size(val(#[trigger] xs[i])) <= val(states[0].threshold),
        0 <= n <= xs.len(),
    ensures
        limiter_sane(val, states[n]),
        val(states[n].gain) == 1 as real,
        val(states[n].threshold) == val(states[0].threshold),
        forall|i: int| 0 <= i < n ==> val(#[trigger] ys[i]) == val(xs[i]),
    decreases n,
{
    if n > 0 {
        lemma_quiet_run(val, xs, states, ys, n - 1);
        assert(limited(states[n - 1], xs[n - 1], states[n], ys[n - 1]));
        law_limiter_passes_quiet(val, states[n - 1], xs[n - 1], states[n], ys[n - 1]);
        law_limiter_holds(val, states[n - 1], xs[n - 1], states[n], ys[n - 1]);
    }
}

/// Whether every key's limiter makes sense as real numbers.
pub open spec fn limiters_sane<S: Sample>(val: spec_fn(S) -> real, v: EngineView<S>) -> bool {
    forall|s: int| 0 <= s < v.keys.len() ==> limiter_sane(val, (#[trigger] v.keys[s]).limiter)
}

/// In exact arithmetic every limiter of a compiled configuration makes sense.
pub proof fn law_compiled_limiters_are_sane<S: Sample>(val: spec_fn(S) -> real, c: ConfigView, v: EngineView<S>)
    requires
        exact(val),
        coherent(c),
        compiled(c, v),
    ensures
        limiters_sane(val, v),
{
    let rate = choose|rate: S| #[trigger] compiled_at(c, rate, v);
    assert forall|s: int| 0 <= s < v.keys.len() implies limiter_sane(val, (#[trigger] v.keys[s]).limiter) by {
        let (i, k) = lemma_locate(c, s, c.endpoints.len() as int);
        assert(key_compiled(c, i, k, rate, v.keys[stream_of(c.endpoints, i, k)]));
        let l = v.keys[s].limiter;
        assert(limiter_default(l, rate));
        let release_s = choose|release_s: S| #[trigger]
            limiter_fresh(l, rate, l.threshold, release_s) && ratio_is(DEFAULT_RELEASE_MS as int, 1000, release_s);
        let w = choose|w: Ratio<S>| #[trigger]
            ratio_by(DEFAULT_THRESHOLD_MILLIONTHS as int, 1_000_000, w, l.threshold);
        assert(val(l.threshold) == 891_251 as real / 1_000_000 as real);
        law_new_limiter_is_sane(val, l, rate, l.threshold, release_s);
    }
}

/// No command touches a limiter.
pub proof fn law_commands_keep_limiters_sane<S: Sample>(
    val: spec_fn(S) -> real,
    before: EngineView<S>,
    cmd: Command,
    after: EngineView<S>,
)
    requires
        limiters_sane(val, before),
        applied(before, cmd, after),
    ensures
        limiters_sane(val, after),
{
    match cmd {
        Command::SetTalk { endpoint, slot, .. } | Command::SetListenLevel { endpoint, slot, .. }
        | Command::SetListenMute { endpoint, slot, .. } => {
            lemma_stream_position(before.keys, endpoint as int, slot, 0);
        },
        _ => {},
    }
    assert forall|s: int| 0 <= s < after.keys.len() implies limiter_sane(val, (#[trigger] after.keys[s]).limiter) by {
        assert(after.keys[s].limiter == before.keys[s].limiter);
    }
}

/// In exact arithmetic every stream comes out within the threshold of its limiter, and every
/// limiter still makes sense after the block.
pub proof fn law_outputs_stay_within<S: Sample>(
    val: spec_fn(S) -> real,
    before: EngineView<S>,
    mic_in: Seq<S>,
    after: EngineView<S>,
)
    requires
        exact(val),
        limiters_sane(val, before),
        block_mixed(before, mic_in, after),
    ensures
        limiters_sane(val, after),
        forall|s: int, i: int|
            #![trigger after.out_row(s)[i]]
            0 <= s < before.keys.len() && 0 <= i < after.out_row(s).len() ==> size(val(after.out_row(s)[i])) <= val(
                before.keys[s].limiter.threshold,
            ),
{
    assert forall|s: int| 0 <= s < before.keys.len() implies limiter_sane(val, (#[trigger] after.keys[s]).limiter) && (
    forall|i: int|
        #![trigger after.out_row(s)[i]]
        0 <= i < after.out_row(s).len() ==> size(val(after.out_row(s)[i])) <= val(
            before.keys[s].limiter.threshold,
        )) by {
        let k = before.keys[s];
        assert(stream_mixed(after, s, k));
        let feed = choose|feed: Seq<S>| #[trigger]
            fed(after, s, k, feed) && block_limited(k.limiter, feed, after.keys[s].limiter, after.out_row(s));
        law_block_stays_within(val, k.limiter, feed, after.keys[s].limiter, after.out_row(s));
    }
    assert forall|s: int, i: int|
        #![trigger after.out_row(s)[i]]
        0 <= s < before.keys.len() && 0 <= i < after.out_row(s).len() implies size(val(after.out_row(s)[i])) <= val(
        before.keys[s].limiter.threshold,
    ) by {
        let k = after.keys[s];
    }
}

/// What holds of binary floating point, where `finite` and `zero` are its finite numbers and
/// its zeros: a zero is neutral, a finite number less itself is a zero, and a zero times a
/// finite number is one.
pub open spec fn cancels<S: Sample>(zero: spec_fn(S) -> bool, finite: spec_fn(S) -> bool) -> bool {
    &&& forall|z: S| #[trigger] whole_is(0, z) ==> zero(z) && finite(z)
    &&& forall|a: S, b: S, r: S| #[trigger] sum_is(a, b, r) && zero(b) && finite(a) ==> alike(zero, a, r)
    &&& forall|a: S, b: S, r: S| #[trigger] sum_is(a, b, r) && zero(a) && finite(b) ==> alike(zero, b, r)
    &&& forall|a: S, b: S, r: S| #[trigger]
        difference_is(a, b, r) && finite(a) && alike(zero, a, b) ==> zero(r)
    &&& forall|a: S, b: S, r: S| #[trigger] product_is(a, b, r) && zero(a) && finite(b) ==> zero(r)
    &&& forall|z: S| #[trigger] zero(z) ==> finite(z)
}

/// Whether two numbers are the same, or both zeros.
pub open spec fn alike<S>(zero: spec_fn(S) -> bool, a: S, b: S) -> bool {
    a == b || zero(a) && zero(b)
}

/// The sum of a bus onto which nobody but `s` puts anything.
proof fn lemma_lone_sum<S: Sample>(
    zero: spec_fn(S) -> bool,
    finite: spec_fn(S) -> bool,
    v: EngineView<S>,
    b: int,
    i: int,
    s: int,
    n: int,
    r: S,
)
    requires
        cancels(zero, finite),
        0 <= n <= v.keys.len(),
        forall|t: int|
            0 <= t < v.keys.len() && t != s && talks_onto(#[trigger] v.keys[t], b) ==> zero(
                chunk(v.shares, t, v.block)[i],
            ),
        finite(chunk(v.shares, s, v.block)[i]),
        total_is(bus_inputs(v.keys, v.shares, v.block, b, i, n), r),
    ensures
        if 0 <= s < n && talks_onto(v.keys[s], b) {
            alike(zero, r, chunk(v.shares, s, v.block)[i])
        } else {
            zero(r)
        },
    decreases n,
{
    let xs = bus_inputs(v.keys, v.shares, v.block, b, i, n);
    let sums = choose|sums: Seq<S>| #[trigger] total_by(xs, sums) && sums.last() == r;
    if n > 0 {
        let rest = bus_inputs(v.keys, v.shares, v.block, b, i, n - 1);
        if talks_onto(v.keys[n - 1], b) {
            let x = chunk(v.shares, n - 1, v.block)[i];
            let before = sums.drop_last();
            assert(xs == rest.push(x));
            assert(total_by(rest, before)) by {
                assert forall|j: int| #![trigger rest[j]] 0 <= j < rest.len() implies sum_is(
                    before[j],
                    rest[j],
                    before[j + 1],
                ) by {
                    assert(xs[j] == rest[j]);
                }
            }
            assert(total_is(rest, before.last()));
            lemma_lone_sum(zero, finite, v, b, i, s, n - 1, before.last());
            assert(xs[rest.len() as int] == x);
            assert(sum_is(before.last(), x, r));
        } else {
            assert(xs == rest);
            lemma_lone_sum(zero, finite, v, b, i, s, n - 1, r);
        }
    }
}

/// A lone talker hears exact silence: where every other contribution to the bus is zero, what
/// a key on it is fed is zero. This needs no exact arithmetic, only that numbers cancel.
pub proof fn law_lone_talker_hears_silence<S: Sample>(
    zero: spec_fn(S) -> bool,
    finite: spec_fn(S) -> bool,
    before: EngineView<S>,
    mic_in: Seq<S>,
    after: EngineView<S>,
    s: int,
    b: usize,
)
    requires
        cancels(zero, finite),
        before.well_formed(),
        after.well_formed(),
        wired(before),
        block_mixed(before, mic_in, after),
        0 <= s < before.keys.len(),
        before.keys[s].source == Source::Bus(b),
        finite(before.keys[s].listen_gain),
        forall|i: int| 0 <= i < before.block ==> finite(#[trigger] after.share_row(s)[i]),
        forall|t: int, i: int|
            #![trigger after.share_row(t)[i]]
            0 <= t < after.keys.len() && t != s && talks_onto(after.keys[t], b as int) && 0 <= i < before.block
                ==> zero(after.share_row(t)[i]),
    ensures
        exists|g: S, feed: Seq<S>| #[trigger]
            heard(before, after, s, g, feed) && (forall|i: int|
                0 <= i < before.block ==> zero(#[trigger] feed[i])),
{
    let k = before.keys[s];
    let n = after.keys.len() as int;
    assert(stream_mixed(after, s, k));
    let feed = choose|feed: Seq<S>| #[trigger]
        fed(after, s, k, feed) && block_limited(k.limiter, feed, after.keys[s].limiter, after.out_row(s));
    let g = choose|g: S| #[trigger] fed_by(after, s, k, g, feed);
    assert(heard(before, after, s, g, feed));
    assert(same_settings(k, after.keys[s]));
    assert(key_wired(k));
    assert(before.key_well_formed(k));
    let bus = after.bus_row(b as int);
    let own = after.share_row(s);
    lemma_row_inside(s, n, after.block);
    lemma_row_inside(b as int, after.bus_ids.len() as int, after.block);
    assert(contributed(k, after.mic_row(k.endpoint as int), before.ramp_step, after.keys[s].ramp, own));
    assert forall|i: int| 0 <= i < before.block implies zero(#[trigger] feed[i]) by {
        assert(bus_sample(after, b as int, i, after.bus_row(b as int)[i]));
        assert(finite(after.share_row(s)[i]));
        assert forall|t: int|
            0 <= t < after.keys.len() && t != s && talks_onto(#[trigger] after.keys[t], b as int) implies zero(
            chunk(after.shares, t, after.block)[i],
        ) by {
            assert(zero(after.share_row(t)[i]));
        }
        lemma_lone_sum(zero, finite, after, b as int, i, s, n, bus[i]);
        assert(minus_own(bus[i], own[i], g, feed[i]));
        let d = choose|d: S| #[trigger] difference_is(bus[i], own[i], d) && product_is(d, g, feed[i]);
        if !k.can_talk {
            assert(whole_is(0, own[i]));
        }
        assert(zero(d));
    }
}

/// Whether a key puts nothing onto its bus: it cannot talk, or has been released and its fade
/// is over.
pub open spec fn at_rest<S: Sample>(k: KeyRt<S>) -> bool {
    k.can_talk ==> !k.talk_on && forall|z: S, settled: bool|
        #![trigger whole_is(0, z), equals_is(k.ramp, z, settled)]
        whole_is(0, z) && equals_is(k.ramp, z, settled) ==> settled
}

/// A key at rest contributes silence, and stays at rest.
pub proof fn law_key_at_rest_is_silent<S: Sample>(k: KeyRt<S>, mic: Seq<S>, step: S, ramp: S, row: Seq<S>)
    requires
        at_rest(k),
        contributed(k, mic, step, ramp, row),
    ensures
        silent(row),
        ramp == k.ramp,
{
    if k.can_talk {
        let (target, steady) = choose|target: S, steady: bool| #[trigger]
            contributed_by(k, mic, step, target, steady, ramp, row);
        assert(steady);
    }
}

/// Whoever alone is talking on a bus hears exact silence: every other key on it is at rest.
pub proof fn law_only_talker_hears_silence<S: Sample>(
    zero: spec_fn(S) -> bool,
    finite: spec_fn(S) -> bool,
    before: EngineView<S>,
    mic_in: Seq<S>,
    after: EngineView<S>,
    s: int,
    b: usize,
)
    requires
        cancels(zero, finite),
        before.well_formed(),
        after.well_formed(),
        wired(before),
        block_mixed(before, mic_in, after),
        0 <= s < before.keys.len(),
        before.keys[s].source == Source::Bus(b),
        finite(before.keys[s].listen_gain),
        forall|i: int| 0 <= i < before.block ==> finite(#[trigger] after.share_row(s)[i]),
        forall|t: int|
            0 <= t < before.keys.len() && t != s && talks_onto(#[trigger] before.keys[t], b as int) ==> at_rest(
                before.keys[t],
            ),
    ensures
        exists|g: S, feed: Seq<S>| #[trigger]
            heard(before, after, s, g, feed) && (forall|i: int|
                0 <= i < before.block ==> zero(#[trigger] feed[i])),
{
    assert forall|t: int, i: int|
        #![trigger after.share_row(t)[i]]
        0 <= t < after.keys.len() && t != s && talks_onto(after.keys[t], b as int) && 0 <= i
            < before.block implies zero(after.share_row(t)[i]) by {
        let k = before.keys[t];
        assert(same_settings(k, after.keys[t]));
        let mic = after.mic_row(k.endpoint as int);
        let row = after.share_row(t);
        assert(contributed(k, mic, before.ramp_step, after.keys[t].ramp, row));
        law_key_at_rest_is_silent(k, mic, before.ramp_step, after.keys[t].ramp, row);
        lemma_row_inside(t, after.keys.len() as int, after.block);
        assert(whole_is(0, row[i]));
    }
    law_lone_talker_hears_silence(zero, finite, before, mic_in, after, s, b);
}

/// A direct key hears the far end's contribution and nothing else, at its listen gain and
/// through its limiter; without a far end it hears silence.
pub proof fn law_direct_hears_the_far_end<S: Sample>(
    before: EngineView<S>,
    mic_in: Seq<S>,
    after: EngineView<S>,
    s: int,
)
    requires
        block_mixed(before, mic_in, after),
        0 <= s < before.keys.len(),
        before.keys[s].source is Direct,
    ensures
        exists|g: S, feed: Seq<S>| #[trigger]
            heard(before, after, s, g, feed) && match before.keys[s].source {
                Source::Direct(Some(t)) => scaled_by(after.share_row(t as int), g, feed),
                _ => silent(feed),
            },
{
    let k = before.keys[s];
    assert(stream_mixed(after, s, k));
    let feed = choose|feed: Seq<S>| #[trigger]
        fed(after, s, k, feed) && block_limited(k.limiter, feed, after.keys[s].limiter, after.out_row(s));
    let g = choose|g: S| #[trigger] fed_by(after, s, k, g, feed);
    assert(heard(before, after, s, g, feed));
}

/// No endpoint can hear itself back: of the streams that talk onto the bus that a key
/// listens to, only that key's own is its endpoint's.
pub proof fn law_nobody_hears_themselves<S: Sample>(v: EngineView<S>, s: int, t: int, b: usize)
    requires
        wired(v),
        0 <= s < v.keys.len(),
        0 <= t < v.keys.len(),
        s != t,
        v.keys[s].source == Source::Bus(b),
        talks_onto(v.keys[t], b as int),
    ensures
        v.keys[t].endpoint != v.keys[s].endpoint,
{
    assert(key_wired(v.keys[t]));
    assert(v.keys[t].source == Source::Bus(b));
}

/// Every stream is some key of some endpoint.
pub proof fn lemma_locate(c: ConfigView, t: int, n: int) -> (r: (int, int))
    requires
        coherent(c),
        0 <= n <= c.endpoints.len(),
        0 <= t < offset(c.endpoints, n),
    ensures
        0 <= r.0 < n,
        0 <= r.1 < c.endpoints[r.0].keys.len(),
        t == stream_of(c.endpoints, r.0, r.1),
    decreases n,
{
    if t >= offset(c.endpoints, n - 1) {
        assert(coherent_keys(c, c.endpoints[n - 1]));
        (n - 1, lemma_at_rank(c.endpoints[n - 1].keys, t - offset(c.endpoints, n - 1)))
    } else {
        lemma_locate(c, t, n - 1)
    }
}

/// Streams are numbered endpoint by endpoint, and by slot within each.
pub proof fn law_streams_are_in_order<S: Sample>(c: ConfigView, v: EngineView<S>)
    requires
        coherent(c),
        compiled(c, v),
    ensures
        streams_ordered(v.keys),
{
    let rate = choose|rate: S| #[trigger] compiled_at(c, rate, v);
    assert forall|s: int, t: int| 0 <= s < t < v.keys.len() implies route_before(
        #[trigger] v.keys[s],
        #[trigger] v.keys[t],
    ) by {
        let (i, k) = lemma_locate(c, s, c.endpoints.len() as int);
        let (j, m) = lemma_locate(c, t, c.endpoints.len() as int);
        assert(key_compiled(c, i, k, rate, v.keys[stream_of(c.endpoints, i, k)]));
        assert(key_compiled(c, j, m, rate, v.keys[stream_of(c.endpoints, j, m)]));
        assert(coherent_keys(c, c.endpoints[i]));
        assert(coherent_keys(c, c.endpoints[j]));
        lemma_rank_inside(c.endpoints[i].keys, k);
        lemma_rank_inside(c.endpoints[j].keys, m);
        if j < i {
            lemma_offset_chain(c, j + 1, i);
        } else if i == j {
            lemma_rank_order(c.endpoints[i].keys, k, m);
        }
    }
}

/// A direct path is mutual: if a key's source is a key of the far end, that key's source
/// is this one.
pub proof fn law_direct_is_mutual<S: Sample>(c: ConfigView, v: EngineView<S>, s: int, t: usize)
    requires
        coherent(c),
        compiled(c, v),
        v.keys.len() <= usize::MAX,
        0 <= s < v.keys.len(),
        v.keys[s].source == Source::Direct(Some(t)),
    ensures
        t < v.keys.len(),
        v.keys[t as int].source == Source::Direct(Some(s as usize)),
        v.keys[t as int].endpoint != v.keys[s].endpoint,
{
    let rate = choose|rate: S| #[trigger] compiled_at(c, rate, v);
    let (i, k) = lemma_locate(c, s, c.endpoints.len() as int);
    let e = c.endpoints[i];
    assert(key_compiled(c, i, k, rate, v.keys[s]));
    assert(e.keys[k].target is Direct);
    let d = e.keys[k].target->Direct_0;
    assert(coherent_keys(c, e));
    assert(reachable(c, e, e.keys[k]));
    lemma_endpoint_position(c.endpoints, d, 0);
    let far = c.endpoint_at(d)->0;
    let f = c.endpoints[far];
    lemma_call_position(f, e.id, 0);
    let m = call_position(f, e.id, 0)->0;
    lemma_stream_inside(c, far, m);
    lemma_stream_inside(c, i, k);
    assert(t == stream_of(c.endpoints, far, m));
    assert(key_compiled(c, far, m, rate, v.keys[t as int]));
    // The way back: the far end's key finds this endpoint, and this key on it.
    lemma_endpoint_position(c.endpoints, e.id, 0);
    let back = c.endpoint_at(e.id)->0;
    assert(back == i);
    lemma_call_position(e, f.id, 0);
    let k2 = call_position(e, f.id, 0)->0;
    assert(e.keys[k].target == TargetView::Direct(f.id));
    assert(call_position(e, f.id, 0) is Some);
    if k2 != k {
        assert(e.keys[k2].target == e.keys[k].target);
    }
}

pub proof fn lemma_stream_inside(c: ConfigView, i: int, k: int)
    requires
        coherent(c),
        0 <= i < c.endpoints.len(),
        0 <= k < c.endpoints[i].keys.len(),
    ensures
        0 <= stream_of(c.endpoints, i, k) < offset(c.endpoints, c.endpoints.len() as int),
{
    assert(coherent_keys(c, c.endpoints[i]));
    lemma_rank_inside(c.endpoints[i].keys, k);
    lemma_offset_chain(c, 0, i);
    lemma_offset_chain(c, i + 1, c.endpoints.len() as int);
}

proof fn lemma_offset_chain(c: ConfigView, i: int, n: int)
    requires
        0 <= i <= n <= c.endpoints.len(),
    ensures
        offset(c.endpoints, i) <= offset(c.endpoints, n),
    decreases n,
{
    if i < n {
        lemma_offset_chain(c, i, n - 1);
    }
}

/// In exact arithmetic the talk fade goes towards its target and never past it.
pub proof fn law_fade_stays_inside<S: Sample>(val: spec_fn(S) -> real, r: S, target: S, step: S, next: S)
    requires
        exact(val),
        fade_is(r, target, step, next),
        val(step) >= 0 as real,
    ensures
        val(r) <= val(target) ==> val(r) <= val(next) <= val(target),
        val(r) >= val(target) ==> val(target) <= val(next) <= val(r),
{
    let w = choose|w: FadeSteps<S>| #[trigger] fade_by(r, target, step, w, next);
    assert(fade_by(r, target, step, w, next));
}

/// In exact arithmetic a hard-muted microphone is silent, whatever it picks up.
pub proof fn law_mute_silences<S: Sample>(
    val: spec_fn(S) -> real,
    before: EngineView<S>,
    mic_in: Seq<S>,
    after: EngineView<S>,
    e: int,
    i: int,
)
    requires
        exact(val),
        before.well_formed(),
        after.well_formed(),
        mic_in.len() == before.endpoints.len() * before.block,
        block_mixed(before, mic_in, after),
        0 <= e < before.endpoints.len(),
        before.endpoints[e].input_muted,
        0 <= i < before.block,
    ensures
        val(after.mic_row(e)[i]) == 0 as real,
{
    let src = chunk(mic_in, e, before.block);
    let dst = after.mic_row(e);
    lemma_row_inside(e, before.endpoints.len() as int, before.block);
    assert(input_staged(before.endpoints[e], src, dst));
    let g = choose|g: S| #[trigger] scaled_by(src, g, dst) && input_gain_now(before.endpoints[e], g);
    assert(product_is(src[i], g, dst[i]));
    assert(val(g) == 0 as real);
    lemma_times_zero(val(src[i]));
}

proof fn lemma_times_zero(x: real)
    by (nonlinear_arith)
    ensures
        x * (0 as real) == 0 as real,
        (0 as real) * x == 0 as real,
{
}

/// In exact arithmetic a silent microphone contributes nothing, on any key.
pub proof fn law_silence_contributes_nothing<S: Sample>(
    val: spec_fn(S) -> real,
    k: KeyRt<S>,
    mic: Seq<S>,
    step: S,
    ramp: S,
    row: Seq<S>,
    i: int,
)
    requires
        exact(val),
        contributed(k, mic, step, ramp, row),
        0 <= i < mic.len(),
        forall|j: int| 0 <= j < mic.len() ==> val(#[trigger] mic[j]) == 0 as real,
    ensures
        val(row[i]) == 0 as real,
{
    assert(val(mic[i]) == 0 as real);
    if !k.can_talk {
        assert(whole_is(0, row[i]));
    } else {
        let (target, steady) = choose|target: S, steady: bool| #[trigger]
            contributed_by(k, mic, step, target, steady, ramp, row);
        if steady {
            if k.talk_on {
                assert(product_is(mic[i], k.share_trim, row[i]));
                lemma_times_zero(val(k.share_trim));
            } else {
                assert(whole_is(0, row[i]));
            }
        } else {
            let ramps = choose|ramps: Seq<S>| #[trigger]
                faded_run(mic, ramps, target, step, k.share_trim, row) && ramps[0] == k.ramp && ramps.last()
                    == ramp;
            assert(fade_step(mic[i], ramps[i], target, step, k.share_trim, ramps[i + 1], row[i]));
            let x = choose|x: S| #[trigger] product_is(mic[i], ramps[i + 1], x) && product_is(x, k.share_trim, row[i]);
            lemma_times_zero(val(ramps[i + 1]));
            lemma_times_zero(val(k.share_trim));
        }
    }
}

/// In exact arithmetic a key that is released and has faded out contributes nothing.
pub proof fn law_released_key_is_silent<S: Sample>(
    val: spec_fn(S) -> real,
    k: KeyRt<S>,
    mic: Seq<S>,
    step: S,
    ramp: S,
    row: Seq<S>,
    i: int,
)
    requires
        exact(val),
        contributed(k, mic, step, ramp, row),
        !k.talk_on,
        val(k.ramp) == 0 as real,
        0 <= i < mic.len(),
    ensures
        val(row[i]) == 0 as real,
        ramp == k.ramp,
{
    if !k.can_talk {
        assert(whole_is(0, row[i]));
    } else {
        let (target, steady) = choose|target: S, steady: bool| #[trigger]
            contributed_by(k, mic, step, target, steady, ramp, row);
        assert(val(target) == 0 as real);
        assert(steady);
        assert(whole_is(0, row[i]));
    }
}

/// In exact arithmetic a limiter at unity leaves a quiet sample as it is.
pub proof fn law_limiter_passes_quiet<S: Sample>(
    val: spec_fn(S) -> real,
    before: Limiter<S>,
    x: S,
    after: Limiter<S>,
    y: S,
)
    requires
        exact(val),
        limiter_sane(val, before),
        limited(before, x, after, y),
        val(before.gain) == 1 as real,
        size(val(x)) <= val(before.threshold),
    ensures
        val(y) == val(x),
        val(after.gain) == 1 as real,
{
    let w = choose|w: LimitSteps<S>| #[trigger] limited_by(before, x, w, after, y);
    assert(val(w.target) == 1 as real);
    assert(!w.attack);
    lemma_times_zero(val(before.release_coef));
    assert(val(x) * (1 as real) == val(x)) by (nonlinear_arith);
}

} // verus!
