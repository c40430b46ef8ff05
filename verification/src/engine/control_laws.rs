//! What a configuration compiles to, and what every command changes.

use vstd::prelude::*;

use crate::config::coherence::{coherent, coherent_keys, reachable};
use crate::config::model::{
    lemma_endpoint_position, lemma_partyline_position, ConfigView, EndpointId, Single, TalkMode, TargetView,
};
use crate::engine::laws::{law_streams_are_in_order, lemma_stream_inside};
use crate::engine::mixer::{Engine, Meters};
use crate::engine::order::stream_of;
use crate::engine::plan::{
    applied, call_position, compiled, compiled_at, key_compiled, lemma_call_position, lemma_stream_position, level_is,
    offset, ramp_by, route_before, stream_position, Command, EndpointRt, EngineView, KeyRt, RampSteps, Source, StreamRoute,
};
use crate::sample::{bits_are, db_to_linear, exact, gain_by, gain_is, power_is, ratio_by, GainSteps, Ratio, Sample};

verus! {

// Levels.

/// Whether, under `val`, a power of ten is what `tens` says.
pub open spec fn powers<S: Sample>(val: spec_fn(S) -> real, tens: spec_fn(real) -> real) -> bool {
    forall|a: S, b: S, r: S| #[trigger] power_is(a, b, r) && val(a) == 10 as real ==> val(r) == tens(val(b))
}

/// In exact arithmetic a level of so many decibels is ten to a twentieth of them as a gain, and
/// nothing at all at -120 dB and below.
pub proof fn law_level_in_decibels<S: Sample>(val: spec_fn(S) -> real, tens: spec_fn(real) -> real, db: S, r: S)
    requires
        exact(val),
        powers(val, tens),
        call_ensures(db_to_linear::<S>, (db,), r),
    ensures
        val(db) <= -120 as real ==> val(r) == 0 as real,
        val(db) > -120 as real ==> val(r) == tens(val(db) / (20 as real)),
{
    assert(gain_is(db, r));
    let w = choose|w: GainSteps<S>| #[trigger] gain_by(db, w, r);
    assert(gain_by(db, w, r));
}

/// In exact arithmetic gains multiply where decibels add: twenty of them are ten times as loud.
pub proof fn law_decibels_add<S: Sample>(
    val: spec_fn(S) -> real,
    tens: spec_fn(real) -> real,
    a: S,
    b: S,
    both: S,
    x: S,
    y: S,
    z: S,
)
    requires
        exact(val),
        powers(val, tens),
        forall|p: real, q: real| #[trigger] tens(p + q) == tens(p) * tens(q),
        tens(1 as real) == 10 as real,
        call_ensures(db_to_linear::<S>, (a,), x),
        call_ensures(db_to_linear::<S>, (b,), y),
        call_ensures(db_to_linear::<S>, (both,), z),
        val(both) == val(a) + val(b),
        val(a) > -120 as real,
        val(b) > -120 as real,
        val(both) > -120 as real,
    ensures
        val(z) == val(x) * val(y),
        val(b) == 20 as real ==> val(z) == val(x) * (10 as real),
{
    law_level_in_decibels(val, tens, a, x);
    law_level_in_decibels(val, tens, b, y);
    law_level_in_decibels(val, tens, both, z);
    let p = val(a) / (20 as real);
    let q = val(b) / (20 as real);
    assert(val(both) / (20 as real) == p + q);
    assert(tens(p + q) == tens(p) * tens(q));
}

/// Whether `gain` is an authored level's gain as a real number.
pub open spec fn authored<S: Sample>(
    val: spec_fn(S) -> real,
    tens: spec_fn(real) -> real,
    level: Single,
    gain: S,
) -> bool {
    exists|db: S| #[trigger]
        bits_are(level.bits, db) && (val(db) <= -120 as real ==> val(gain) == 0 as real) && (val(db) > -120 as real
            ==> val(gain) == tens(val(db) / (20 as real)))
}

/// In exact arithmetic a level is what its decibels say.
pub proof fn law_authored_levels<S: Sample>(
    val: spec_fn(S) -> real,
    tens: spec_fn(real) -> real,
    level: Single,
    gain: S,
)
    requires
        exact(val),
        powers(val, tens),
        level_is(level, gain),
    ensures
        authored(val, tens, level, gain),
{
    let db = choose|db: S| #[trigger] bits_are(level.bits, db) && gain_is(db, gain);
    let w = choose|w: GainSteps<S>| #[trigger] gain_by(db, w, gain);
    assert(gain_by(db, w, gain));
    assert(bits_are(level.bits, db));
}

// Commands.

/// Whether no two keys share an endpoint and a slot.
pub open spec fn places_distinct<S>(keys: Seq<KeyRt<S>>) -> bool {
    forall|s: int, t: int|
        0 <= s < keys.len() && 0 <= t < keys.len() && s != t ==> (#[trigger] keys[s]).endpoint != (#[trigger] keys[t]).endpoint
            || keys[s].slot != keys[t].slot
}

/// Whether a key is the one in this slot of this endpoint.
pub open spec fn placed_at<S>(k: KeyRt<S>, endpoint: usize, slot: u8) -> bool {
    k.endpoint == endpoint && k.slot == slot
}

/// Pressing or releasing a talk key sets that key, if it can talk, to exactly what the command
/// says, whatever it was before; and changes nothing else.
pub proof fn law_talk_sets_its_key<S: Sample>(
    before: EngineView<S>,
    endpoint: usize,
    slot: u8,
    on: bool,
    after: EngineView<S>,
    s: int,
)
    requires
        applied(before, Command::SetTalk { endpoint, slot, on }, after),
        places_distinct(before.keys),
        0 <= s < before.keys.len(),
    ensures
        placed_at(before.keys[s], endpoint, slot) && before.keys[s].can_talk ==> after.keys[s].talk_on == on,
        !placed_at(before.keys[s], endpoint, slot) || !before.keys[s].can_talk ==> after.keys[s].talk_on
            == before.keys[s].talk_on,
        after.keys[s] == (KeyRt { talk_on: after.keys[s].talk_on, ..before.keys[s] }),
        after.keys.len() == before.keys.len(),
        after == (EngineView { keys: after.keys, ..before }),
{
    lemma_stream_position(before.keys, endpoint as int, slot, 0);
}

/// A listen level sets the gain of that key, to what its decibels say; and changes nothing
/// else.
pub proof fn law_listen_level_sets_its_key<S: Sample>(
    val: spec_fn(S) -> real,
    tens: spec_fn(real) -> real,
    before: EngineView<S>,
    endpoint: usize,
    slot: u8,
    db: Single,
    after: EngineView<S>,
    s: int,
)
    requires
        exact(val),
        powers(val, tens),
        applied(before, Command::SetListenLevel { endpoint, slot, db }, after),
        places_distinct(before.keys),
        0 <= s < before.keys.len(),
    ensures
        placed_at(before.keys[s], endpoint, slot) ==> authored(val, tens, db, after.keys[s].listen_gain),
        !placed_at(before.keys[s], endpoint, slot) ==> after.keys[s].listen_gain == before.keys[s].listen_gain,
        after.keys[s] == (KeyRt { listen_gain: after.keys[s].listen_gain, ..before.keys[s] }),
        after.keys.len() == before.keys.len(),
        after == (EngineView { keys: after.keys, ..before }),
{
    lemma_stream_position(before.keys, endpoint as int, slot, 0);
    if placed_at(before.keys[s], endpoint, slot) {
        law_authored_levels(val, tens, db, after.keys[s].listen_gain);
    }
}

/// Muting or unmuting a listen path sets that key to exactly what the command says, whatever it
/// was before; and changes nothing else.
pub proof fn law_listen_mute_sets_its_key<S: Sample>(
    before: EngineView<S>,
    endpoint: usize,
    slot: u8,
    muted: bool,
    after: EngineView<S>,
    s: int,
)
    requires
        applied(before, Command::SetListenMute { endpoint, slot, muted }, after),
        places_distinct(before.keys),
        0 <= s < before.keys.len(),
    ensures
        placed_at(before.keys[s], endpoint, slot) ==> after.keys[s].listen_muted == muted,
        !placed_at(before.keys[s], endpoint, slot) ==> after.keys[s].listen_muted == before.keys[s].listen_muted,
        after.keys[s] == (KeyRt { listen_muted: after.keys[s].listen_muted, ..before.keys[s] }),
        after.keys.len() == before.keys.len(),
        after == (EngineView { keys: after.keys, ..before }),
{
    lemma_stream_position(before.keys, endpoint as int, slot, 0);
}

/// A microphone gain sets the gain of that endpoint, to what its decibels say; and changes
/// nothing else.
pub proof fn law_input_gain_sets_its_endpoint<S: Sample>(
    val: spec_fn(S) -> real,
    tens: spec_fn(real) -> real,
    before: EngineView<S>,
    endpoint: usize,
    db: Single,
    after: EngineView<S>,
    e: int,
)
    requires
        exact(val),
        powers(val, tens),
        applied(before, Command::SetInputGain { endpoint, db }, after),
        0 <= e < before.endpoints.len(),
    ensures
        e == endpoint ==> authored(val, tens, db, after.endpoints[e].input_gain),
        e != endpoint ==> after.endpoints[e].input_gain == before.endpoints[e].input_gain,
        after.endpoints[e] == (EndpointRt { input_gain: after.endpoints[e].input_gain, ..before.endpoints[e] }),
        after.endpoints.len() == before.endpoints.len(),
        after == (EngineView { endpoints: after.endpoints, ..before }),
{
    if e == endpoint {
        law_authored_levels(val, tens, db, after.endpoints[e].input_gain);
    }
}

/// Muting or unmuting a microphone sets that endpoint to exactly what the command says,
/// whatever it was before; and changes nothing else.
pub proof fn law_input_mute_sets_its_endpoint<S: Sample>(
    before: EngineView<S>,
    endpoint: usize,
    muted: bool,
    after: EngineView<S>,
    e: int,
)
    requires
        applied(before, Command::SetInputMute { endpoint, muted }, after),
        0 <= e < before.endpoints.len(),
    ensures
        e == endpoint ==> after.endpoints[e].input_muted == muted,
        e != endpoint ==> after.endpoints[e].input_muted == before.endpoints[e].input_muted,
        after.endpoints[e] == (EndpointRt { input_muted: after.endpoints[e].input_muted, ..before.endpoints[e] }),
        after.endpoints.len() == before.endpoints.len(),
        after == (EngineView { endpoints: after.endpoints, ..before }),
{
}

/// Muting a live microphone and then unmuting it gives back the engine as it was.
pub proof fn law_unmuting_undoes_muting<S: Sample>(
    before: EngineView<S>,
    endpoint: usize,
    muted: EngineView<S>,
    after: EngineView<S>,
)
    requires
        applied(before, Command::SetInputMute { endpoint, muted: true }, muted),
        applied(muted, Command::SetInputMute { endpoint, muted: false }, after),
        endpoint < before.endpoints.len() ==> !before.endpoints[endpoint as int].input_muted,
    ensures
        after == before,
{
    assert(after.endpoints =~= before.endpoints);
}

/// Releasing a key undoes pressing it.
pub proof fn law_releasing_undoes_pressing<S: Sample>(
    before: EngineView<S>,
    endpoint: usize,
    slot: u8,
    pressed: EngineView<S>,
    after: EngineView<S>,
)
    requires
        applied(before, Command::SetTalk { endpoint, slot, on: true }, pressed),
        applied(pressed, Command::SetTalk { endpoint, slot, on: false }, after),
        places_distinct(before.keys),
        forall|s: int| 0 <= s < before.keys.len() ==> !(#[trigger] before.keys[s]).talk_on,
    ensures
        after == before,
{
    lemma_stream_position(before.keys, endpoint as int, slot, 0);
    lemma_stream_position(pressed.keys, endpoint as int, slot, 0);
    assert(after.keys =~= before.keys);
}

/// Clearing releases every key, and changes nothing else.
pub proof fn law_clearing_releases_everyone<S: Sample>(before: EngineView<S>, after: EngineView<S>, s: int)
    requires
        applied(before, Command::ClearAllTalk, after),
        0 <= s < before.keys.len(),
    ensures
        !after.keys[s].talk_on,
        after.keys[s] == (KeyRt { talk_on: false, ..before.keys[s] }),
        after.keys.len() == before.keys.len(),
        after == (EngineView { keys: after.keys, ..before }),
{
}

/// A command for a key or an endpoint that is not there changes nothing.
pub proof fn law_commands_to_nobody_do_nothing<S: Sample>(before: EngineView<S>, cmd: Command, after: EngineView<S>)
    requires
        applied(before, cmd, after),
        match cmd {
            Command::SetTalk { endpoint, slot, .. } | Command::SetListenLevel { endpoint, slot, .. }
            | Command::SetListenMute { endpoint, slot, .. } => forall|s: int|
                0 <= s < before.keys.len() ==> !placed_at(#[trigger] before.keys[s], endpoint, slot),
            Command::SetInputGain { endpoint, .. } | Command::SetInputMute { endpoint, .. } => endpoint
                >= before.endpoints.len(),
            Command::ClearAllTalk => forall|s: int|
                0 <= s < before.keys.len() ==> !(#[trigger] before.keys[s]).talk_on,
        },
    ensures
        after == before,
{
    match cmd {
        Command::SetTalk { endpoint, slot, .. } | Command::SetListenLevel { endpoint, slot, .. }
        | Command::SetListenMute { endpoint, slot, .. } => {
            lemma_stream_position(before.keys, endpoint as int, slot, 0);
            if stream_position(before.keys, endpoint as int, slot, 0) is Some {
                let s = stream_position(before.keys, endpoint as int, slot, 0)->0;
                assert(placed_at(before.keys[s], endpoint, slot));
            }
        },
        Command::ClearAllTalk => {
            assert(after.keys =~= before.keys);
        },
        _ => {},
    }
}

// Compiling.

/// Every key of a configuration has a stream of its own, with the key's place and settings: it
/// is not talking, listens to the partyline or the endpoint that it targets, and talks there
/// exactly if it may.
pub proof fn law_every_key_has_its_stream<S: Sample>(
    val: spec_fn(S) -> real,
    tens: spec_fn(real) -> real,
    c: ConfigView,
    v: EngineView<S>,
    i: int,
    k: int,
) -> (s: int)
    requires
        exact(val),
        powers(val, tens),
        coherent(c),
        compiled(c, v),
        c.partylines.len() <= usize::MAX,
        v.keys.len() <= usize::MAX,
        0 <= i < c.endpoints.len(),
        0 <= k < c.endpoints[i].keys.len(),
    ensures
        0 <= s < v.keys.len(),
        v.keys[s].endpoint == i,
        v.keys[s].slot == c.endpoints[i].keys[k].slot,
        !v.keys[s].talk_on,
        val(v.keys[s].ramp) == 0 as real,
        v.keys[s].can_talk <==> c.endpoints[i].keys[k].talk_mode != TalkMode::ListenOnly,
        v.keys[s].listen_muted == c.endpoints[i].keys[k].listen_muted,
        authored(val, tens, c.endpoints[i].keys[k].listen_level_db, v.keys[s].listen_gain),
        c.endpoints[i].keys[k].target matches TargetView::Partyline(p) ==> {
            &&& v.keys[s].source matches Source::Bus(b)
            &&& b < v.bus_ids.len()
            &&& v.bus_ids[b as int] == p
            &&& v.keys[s].contributes_to == (if c.endpoints[i].keys[k].talk_mode == TalkMode::ListenOnly {
                None
            } else {
                Some(b)
            })
            &&& c.partylines[b as int].id == p
            &&& authored(val, tens, c.partylines[b as int].bus_trim_db, v.keys[s].share_trim)
        },
        c.endpoints[i].keys[k].target matches TargetView::Direct(d) ==> {
            &&& v.keys[s].contributes_to is None
            &&& val(v.keys[s].share_trim) == 1 as real
            &&& match v.keys[s].source {
                Source::Direct(Some(t)) => {
                    &&& t < v.keys.len()
                    &&& v.endpoint_ids[v.keys[t as int].endpoint as int] == d
                    &&& v.keys[t as int].source == Source::Direct(Some(s as usize))
                },
                Source::Direct(None) => forall|j: int, m: int|
                    #![trigger c.endpoints[j].keys[m]]
                    0 <= j < c.endpoints.len() && c.endpoints[j].id == d && 0 <= m < c.endpoints[j].keys.len()
                        ==> c.endpoints[j].keys[m].target != TargetView::Direct(c.endpoints[i].id),
                Source::Bus(_) => false,
            }
        },
{
    let rate = choose|rate: S| #[trigger] compiled_at(c, rate, v);
    let s = stream_of(c.endpoints, i, k);
    let e = c.endpoints[i];
    let key = e.keys[k];
    lemma_stream_inside(c, i, k);
    assert(c.endpoints[i].keys[k] == key);
    assert(key_compiled(c, i, k, rate, v.keys[s]));
    assert(coherent_keys(c, e));
    assert(reachable(c, e, key));
    law_authored_levels(val, tens, key.listen_level_db, v.keys[s].listen_gain);
    match key.target {
        TargetView::Partyline(p) => {
            lemma_partyline_position(c.partylines, p, 0);
            let b = c.partyline_at(p)->0;
            law_authored_levels(val, tens, c.partylines[b].bus_trim_db, v.keys[s].share_trim);
        },
        TargetView::Direct(d) => {
            lemma_endpoint_position(c.endpoints, d, 0);
            let far = c.endpoint_at(d)->0;
            lemma_call_position(c.endpoints[far], e.id, 0);
            if let Some(back) = call_position(c.endpoints[far], e.id, 0) {
                lemma_stream_inside(c, far, back);
                let t = stream_of(c.endpoints, far, back);
                assert(c.endpoints[far].keys[back].target == TargetView::Direct(e.id));
                assert(key_compiled(c, far, back, rate, v.keys[t]));
                assert(v.endpoint_ids[far] == c.endpoints[far].id);
                crate::engine::laws::law_direct_is_mutual(c, v, s, t as usize);
            } else {
                assert forall|j: int, m: int|
                    #![trigger c.endpoints[j].keys[m]]
                    0 <= j < c.endpoints.len() && c.endpoints[j].id == d && 0 <= m
                        < c.endpoints[j].keys.len() implies c.endpoints[j].keys[m].target != TargetView::Direct(
                    c.endpoints[i].id,
                ) by {
                    assert(c.endpoints[j].id == c.endpoints[far].id);
                    assert(j == far);
                }
            }
        },
    }
    s
}

/// How many keys a configuration has.
pub open spec fn key_count(c: ConfigView, n: int) -> int
    decreases n,
{
    if n <= 0 {
        0
    } else {
        key_count(c, n - 1) + c.endpoints[n - 1].keys.len()
    }
}

proof fn lemma_key_count(c: ConfigView, n: int)
    ensures
        offset(c.endpoints, n) == key_count(c, n),
    decreases n,
{
    if n > 0 {
        lemma_key_count(c, n - 1);
    }
}

/// A compiled engine has the configuration's endpoints, buses and block, with the endpoints'
/// microphones set as they are authored, and one stream for every key.
pub proof fn law_engine_has_what_is_configured<S: Sample>(
    val: spec_fn(S) -> real,
    tens: spec_fn(real) -> real,
    c: ConfigView,
    v: EngineView<S>,
)
    requires
        exact(val),
        powers(val, tens),
        compiled(c, v),
    ensures
        v.block == c.system.ptime_samples,
        v.keys.len() == key_count(c, c.endpoints.len() as int),
        v.endpoints.len() == c.endpoints.len(),
        v.bus_ids.len() == c.partylines.len(),
        forall|e: int|
            0 <= e < v.endpoints.len() ==> v.endpoint_ids[e] == c.endpoints[e].id && (#[trigger] v.endpoints[e]).input_muted
                == c.endpoints[e].input_muted && authored(
                val,
                tens,
                c.endpoints[e].input_gain_db,
                v.endpoints[e].input_gain,
            ),
        forall|b: int| 0 <= b < v.bus_ids.len() ==> #[trigger] v.bus_ids[b] == c.partylines[b].id,
{
    let rate = choose|rate: S| #[trigger] compiled_at(c, rate, v);
    lemma_key_count(c, c.endpoints.len() as int);
    assert forall|e: int| 0 <= e < v.endpoints.len() implies v.endpoint_ids[e] == c.endpoints[e].id && (#[trigger] v.endpoints[e]).input_muted
        == c.endpoints[e].input_muted && authored(val, tens, c.endpoints[e].input_gain_db, v.endpoints[e].input_gain) by {
        let end = c.endpoints[e];
        law_authored_levels(val, tens, end.input_gain_db, v.endpoints[e].input_gain);
    }
    assert forall|b: int| 0 <= b < v.bus_ids.len() implies #[trigger] v.bus_ids[b] == c.partylines[b].id by {
        let p = c.partylines[b];
    }
}

/// In exact arithmetic the talk fade takes the authored time: the steps of that many samples
/// make one. The time is at least a tenth of a millisecond.
pub proof fn law_fade_takes_its_time<S: Sample>(val: spec_fn(S) -> real, c: ConfigView, v: EngineView<S>)
    requires
        exact(val),
        compiled(c, v),
        c.system.sample_rate > 0,
    ensures
        exists|ms: S| #[trigger]
            bits_are(c.system.talk_ramp_ms.bits, ms) && val(v.ramp_step) * ((if val(ms) * (10 as real) < 1 as real {
                (1 as real) / (10 as real)
            } else {
                val(ms)
            }) * (c.system.sample_rate as real) / (1000 as real)) == 1 as real,
        val(v.ramp_step) > 0 as real,
{
    let rate = choose|rate: S| #[trigger] compiled_at(c, rate, v);
    let w = choose|w: RampSteps<S>| #[trigger] ramp_by(c.system.talk_ramp_ms, rate, w, v.ramp_step);
    let u = choose|u: Ratio<S>| #[trigger] ratio_by(1, 10, u, w.least);
    let y = choose|y: Ratio<S>| #[trigger] ratio_by(1, 1000, y, w.thousandth);
    assert(val(w.least) == 1 as real / 10 as real);
    assert(val(w.thousandth) == 1 as real / 1000 as real);
    let m = val(w.ms);
    let r = c.system.sample_rate as real;
    assert(val(rate) == r);
    let n = val(w.samples);
    assert(n == m * (1 as real / 1000 as real) * r);
    assert(n > 0 as real && n == m * r / (1000 as real)) by (nonlinear_arith)
        requires
            m > 0 as real,
            r > 0 as real,
            n == m * (1 as real / 1000 as real) * r,
    ;
    let step = val(v.ramp_step);
    assert(step * n == 1 as real && step > 0 as real) by (nonlinear_arith)
        requires
            n > 0 as real,
            step == (1 as real) / n,
    ;
    assert(bits_are(c.system.talk_ramp_ms.bits, w.authored));
}

/// What an engine reports is what it holds: its block, how many endpoints, buses and streams it
/// has, whose each stream is, every meter, and every output at its own place.
pub proof fn law_engine_reports_what_it_holds<S: Sample>(
    engine: Engine<S>,
    block: usize,
    endpoints: usize,
    buses: usize,
    streams: usize,
    routes: &[StreamRoute],
    meters: &Meters<S>,
    all: &[S],
    s: usize,
    one: &[S],
)
    requires
        call_ensures(Engine::<S>::block_size, (&engine,), block),
        call_ensures(Engine::<S>::endpoint_count, (&engine,), endpoints),
        call_ensures(Engine::<S>::bus_count, (&engine,), buses),
        call_ensures(Engine::<S>::stream_count, (&engine,), streams),
        call_ensures(Engine::<S>::routes, (&engine,), routes),
        call_ensures(Engine::<S>::meters, (&engine,), meters),
        call_ensures(Engine::<S>::output, (&engine,), all),
        call_ensures(Engine::<S>::stream_output, (&engine, s), one),
        0 <= s * engine@.block,
        s * engine@.block + engine@.block <= engine@.out.len(),
    ensures
        block == engine@.block,
        endpoints == engine@.endpoints.len(),
        buses == engine@.bus_ids.len(),
        streams == engine@.keys.len(),
        routes@.len() == engine@.keys.len(),
        forall|t: int|
            0 <= t < routes@.len() ==> (#[trigger] routes@[t]).endpoint == engine@.keys[t].endpoint && routes@[t].slot
                == engine@.keys[t].slot,
        meters.inputs@ == engine@.input_peaks,
        meters.buses@ == engine@.bus_peaks,
        meters.outputs@ == engine@.output_peaks,
        all@ == engine@.out,
        one@.len() == engine@.block,
        forall|j: int| 0 <= j < one@.len() ==> #[trigger] one@[j] == engine@.out[s * engine@.block + j],
{
}

/// A stream is found by its endpoint and slot, and only if there is one; an endpoint by its name,
/// at the first place where it stands.
pub proof fn law_engine_finds_its_streams<S: Sample>(
    engine: Engine<S>,
    endpoint: usize,
    slot: u8,
    at: Option<usize>,
    id: &EndpointId,
    e: Option<usize>,
)
    requires
        call_ensures(Engine::<S>::stream_index, (&engine, endpoint, slot), at),
        call_ensures(Engine::<S>::endpoint_index, (&engine, id), e),
    ensures
        at is None <==> forall|s: int|
            0 <= s < engine@.keys.len() ==> !placed_at(#[trigger] engine@.keys[s], endpoint, slot),
        at matches Some(s) ==> s < engine@.keys.len() && placed_at(engine@.keys[s as int], endpoint, slot),
        e is None <==> forall|i: int| 0 <= i < engine@.endpoint_ids.len() ==> #[trigger] engine@.endpoint_ids[i] != id@,
        e matches Some(i) ==> i < engine@.endpoint_ids.len() && engine@.endpoint_ids[i as int] == id@,
{
    lemma_stream_position(engine@.keys, endpoint as int, slot, 0);
    let ids = engine@.endpoint_ids;
    if let Some(i) = e {
        assert(ids[i as int] == id@);
    } else {
        assert forall|i: int| 0 <= i < ids.len() implies #[trigger] ids[i] != id@ by {
            assert(engine@.endpoint_ids[i] != id@);
        }
    }
}

/// The streams of a compiled engine are numbered endpoint by endpoint, and by slot within each.
pub proof fn law_streams_go_by_endpoint_and_slot<S: Sample>(c: ConfigView, v: EngineView<S>, s: int, t: int)
    requires
        coherent(c),
        compiled(c, v),
        0 <= s < t < v.keys.len(),
    ensures
        v.keys[s].endpoint < v.keys[t].endpoint || (v.keys[s].endpoint == v.keys[t].endpoint && v.keys[s].slot
            < v.keys[t].slot),
{
    law_streams_are_in_order(c, v);
    assert(route_before(v.keys[s], v.keys[t]));
}

} // verus!
