//! What every command does to the host, and what a snapshot shows of it.

use vstd::prelude::*;

use crate::config::coherence::{coherent, lemma_coherent};
use crate::config::findings::{errors, findings, is_error, is_warning, problems_view, Problem};
use crate::config::model::{lemma_endpoint_position, Config, ConfigView};
use crate::engine::control_laws::places_distinct;
use crate::engine::mixer::{BuildError, Engine};
use crate::engine::order::stream_of;
use crate::engine::plan::{applied, compiled, lemma_stream_position, stream_position, Command, EngineView, KeyRt};
use crate::lists::lemma_filter_positions;
use crate::ptp::port::PtpStatus;
use crate::sample::{bits_are, exact, logarithm_is, whole_is, Sample};
use crate::server::audio_io::StreamHealth;
use crate::server::host::{
    block_done, blocks_per_wake, decibels_by, held, host_fresh, id_position, lemma_id_position, lemma_replayed_shape,
    level_is_of, linear_to_db, obeyed, publish_due, published, rebuilt_from, tick_missed, DecibelSteps, HostCommand,
    HostState, HostView, Level, PtpHealth, Snapshot, TalkRequest,
};
use crate::server::host_laws::{law_peaks_are_held, law_talk_survives_a_rebuild};
use crate::server::talk::{
    holds_key, in_order, intent_before, intent_of, is_on, key_exists, labels_view, law_intent_is_remembered,
    lemma_filter_in_order, lemma_key_at_its_place, lemma_put_in_order, place_of, put, still_there, talking,
    IntentView, TalkMap,
};
use crate::text::decimal;
use crate::text_laws::{comes_first, lemma_before};

verus! {

/// Whether a key is meant to talk.
pub open spec fn means_to_talk(talk: Seq<IntentView>, endpoint: Seq<char>, slot: u8) -> bool {
    exists|i: int|
        0 <= i < talk.len() && (#[trigger] talk[i]).endpoint == endpoint && talk[i].slot == slot && talk[i].on
}

/// Whether the configuration has a key in this slot of an endpoint of this name.
pub open spec fn has_key(c: ConfigView, endpoint: Seq<char>, slot: u8) -> bool {
    exists|i: int, k: int|
        0 <= i < c.endpoints.len() && 0 <= k < c.endpoints[i].keys.len() && (#[trigger] c.endpoints[i].keys[k]).slot
            == slot && c.endpoints[i].id == endpoint
}

proof fn lemma_meaning(talk: Seq<IntentView>, endpoint: Seq<char>, slot: u8)
    requires
        in_order(talk),
    ensures
        means_to_talk(talk, endpoint, slot) <==> intent_of(talk, endpoint, slot) == Some(true),
{
    let i = place_of(talk, endpoint, slot, 0);
    if means_to_talk(talk, endpoint, slot) {
        let k = choose|k: int|
            0 <= k < talk.len() && (#[trigger] talk[k]).endpoint == endpoint && talk[k].slot == slot && talk[k].on;
        lemma_key_at_its_place(talk, k, endpoint, slot);
        assert(holds_key(talk, k, endpoint, slot));
    }
    if intent_of(talk, endpoint, slot) == Some(true) {
        assert(talk[i].endpoint == endpoint);
    }
}

/// Intents are kept in order of endpoint name and then of slot, each key once.
pub proof fn law_intents_are_ordered_by_name_and_slot(talk: Seq<IntentView>, i: int, j: int)
    requires
        in_order(talk),
        0 <= i < j < talk.len(),
    ensures
        comes_first(talk[i].endpoint, talk[j].endpoint) || (talk[i].endpoint == talk[j].endpoint && talk[i].slot
            < talk[j].slot),
{
    lemma_before(talk[i].endpoint, talk[j].endpoint);
    assert(intent_before(talk[i], talk[j]));
}

/// Whether the endpoints that the engine knows have a name each.
pub open spec fn names_distinct(ids: Seq<Seq<char>>) -> bool {
    forall|i: int, j: int| 0 <= i < ids.len() && 0 <= j < ids.len() && i != j ==> #[trigger] ids[i] != #[trigger] ids[j]
}

/// A key that is pressed or released by name is from then on meant to do just that, and nobody
/// else's intent changes. In the engine that key, where it can talk, does what was asked,
/// whatever it did before; every other key and everything else stays as it was.
pub proof fn law_a_key_does_as_it_is_told<S: Sample>(
    before: HostView<S>,
    req: TalkRequest,
    after: HostView<S>,
    r: Result<bool, BuildError>,
    endpoint: Seq<char>,
    slot: u8,
    s: int,
)
    requires
        obeyed(before, HostCommand::SetTalk(req), after, r),
        in_order(before.talk),
        names_distinct(before.engine.endpoint_ids),
        places_distinct(before.engine.keys),
        0 <= s < before.engine.keys.len(),
        before.engine.keys[s].endpoint < before.engine.endpoint_ids.len(),
    ensures
        r == Ok::<bool, BuildError>(false),
        in_order(after.talk),
        means_to_talk(after.talk, endpoint, slot) <==> if endpoint == req.endpoint@ && slot == req.slot {
            req.on
        } else {
            means_to_talk(before.talk, endpoint, slot)
        },
        ({
            let k = before.engine.keys[s];
            let named = before.engine.endpoint_ids[k.endpoint as int] == req.endpoint@ && k.slot == req.slot;
            after.engine.keys[s].talk_on == if named && k.can_talk {
                req.on
            } else {
                k.talk_on
            }
        }),
        after.engine.keys[s] == (KeyRt { talk_on: after.engine.keys[s].talk_on, ..before.engine.keys[s] }),
        after.engine.keys.len() == before.engine.keys.len(),
        after.engine == (EngineView { keys: after.engine.keys, ..before.engine }),
        after == (HostView { talk: after.talk, engine: after.engine, ..before }),
{
    let x = IntentView { endpoint: req.endpoint@, slot: req.slot, on: req.on };
    law_intent_is_remembered(before.talk, x, endpoint, slot);
    lemma_put_in_order(before.talk, x);
    lemma_meaning(before.talk, endpoint, slot);
    lemma_meaning(put(before.talk, x), endpoint, slot);
    let v = before.engine;
    lemma_id_position(v.endpoint_ids, x.endpoint, 0);
    let k = v.keys[s];
    if let Some(e) = id_position(v.endpoint_ids, x.endpoint, 0) {
        lemma_stream_position(v.keys, e, x.slot, 0);
        if v.endpoint_ids[k.endpoint as int] == x.endpoint {
            assert(e == k.endpoint);
        }
        if let Some(t) = stream_position(v.keys, e, x.slot, 0) {
            if t != s && k.endpoint == e && k.slot == x.slot {
                assert(v.keys[t].endpoint != v.keys[s].endpoint || v.keys[t].slot != v.keys[s].slot);
            }
        }
    }
}

/// Clearing talk leaves nobody meaning to talk and no key talking, and changes nothing else.
pub proof fn law_clearing_silences_everyone<S: Sample>(
    before: HostView<S>,
    after: HostView<S>,
    r: Result<bool, BuildError>,
)
    requires
        obeyed(before, HostCommand::ClearAllTalk, after, r),
    ensures
        r == Ok::<bool, BuildError>(false),
        after.talk.len() == 0,
        forall|endpoint: Seq<char>, slot: u8| !means_to_talk(after.talk, endpoint, slot),
        after.engine.keys.len() == before.engine.keys.len(),
        forall|s: int|
            0 <= s < after.engine.keys.len() ==> !(#[trigger] after.engine.keys[s]).talk_on && after.engine.keys[s]
                == (KeyRt { talk_on: false, ..before.engine.keys[s] }),
        after.engine == (EngineView { keys: after.engine.keys, ..before.engine }),
        after == (HostView { talk: after.talk, engine: after.engine, ..before }),
{
}

/// A command for the engine is given to it as it is, and changes nothing of the host's own.
pub proof fn law_engine_commands_are_passed_on<S: Sample>(
    before: HostView<S>,
    cmd: Command,
    after: HostView<S>,
    r: Result<bool, BuildError>,
)
    requires
        obeyed(before, HostCommand::Engine(cmd), after, r),
    ensures
        r == Ok::<bool, BuildError>(false),
        applied(before.engine, cmd, after.engine),
        after.talk == before.talk,
        after.config == before.config,
        after.generation == before.generation,
        after.blocks == before.blocks,
        after.late_ticks == before.late_ticks,
        after.in_peak == before.in_peak,
        after.bus_peak == before.bus_peak,
        after.out_peak == before.out_peak,
{
}

/// A configuration with errors changes nothing.
pub proof fn law_a_bad_configuration_changes_nothing<S: Sample>(
    before: HostView<S>,
    config: Config,
    after: HostView<S>,
    r: Result<bool, BuildError>,
)
    requires
        obeyed(before, HostCommand::Rebuild(config), after, r),
    ensures
        r is Err <==> !coherent(config@),
        r is Err ==> after == before,
        r matches Ok(anew) ==> anew,
{
}

/// Whether `count` and `first` are how many errors validation finds and what the first says.
pub open spec fn tells(problems: Seq<Problem>, count: usize, first: Seq<char>) -> bool {
    &&& 0 < count <= problems.len()
    &&& forall|i: int| 0 <= i < problems.len() ==> ((#[trigger] problems[i]).severity is Error <==> i < count)
    &&& first == problems[0].message@
}

proof fn lemma_tells(config: &Config, problems: Vec<Problem>, count: usize, first: Seq<char>)
    requires
        call_ensures(Config::validate, (config,), problems),
        !coherent(config@),
        count == errors(config@).len(),
        first == errors(config@)[0].message,
    ensures
        tells(problems@, count, first),
{
    let c = config@;
    let all = problems_view(problems@);
    let (e, w) = (findings(c).filter(is_error()), findings(c).filter(is_warning()));
    let at = lemma_filter_positions(findings(c), is_error());
    let wt = lemma_filter_positions(findings(c), is_warning());
    lemma_coherent(c);
    assert(all == e + w);
    assert(all.len() == problems@.len());
    assert forall|i: int| 0 <= i < problems@.len() implies ((#[trigger] problems@[i]).severity is Error <==> i < count) by {
        assert(all[i] == problems@[i]@);
        if i < e.len() {
            assert(is_error()(findings(c)[at[i]]));
        } else {
            assert(is_warning()(findings(c)[wt[i - e.len()]]));
        }
    }
    assert(all[0] == problems@[0]@);
}

/// An engine or a host is built exactly from a configuration without errors; otherwise the answer
/// tells how many errors there are and what the first one says. A rebuild answers the same.
pub proof fn law_refusals_count_the_errors<S: Sample>(
    config: &Config,
    given: Config,
    problems: Vec<Problem>,
    engine: Result<Engine<S>, BuildError>,
    host: Result<HostState<S>, BuildError>,
    before: HostView<S>,
    after: HostView<S>,
    rebuilt: Result<bool, BuildError>,
)
    requires
        given == *config,
        call_ensures(Config::validate, (config,), problems),
        call_ensures(Engine::<S>::new, (config,), engine),
        call_ensures(HostState::<S>::new, (given,), host),
        obeyed(before, HostCommand::Rebuild(given), after, rebuilt),
    ensures
        engine is Ok <==> coherent(config@),
        host is Ok <==> coherent(config@),
        rebuilt is Ok <==> coherent(config@),
        engine matches Err(BuildError::Invalid(count, first)) ==> tells(problems@, count, first@),
        host matches Err(BuildError::Invalid(count, first)) ==> tells(problems@, count, first@),
        rebuilt matches Err(BuildError::Invalid(count, first)) ==> tells(problems@, count, first@),
{
    if let Err(BuildError::Invalid(count, first)) = engine {
        lemma_tells(config, problems, count, first@);
    }
    if let Err(BuildError::Invalid(count, first)) = host {
        lemma_tells(config, problems, count, first@);
    }
    if let Err(BuildError::Invalid(count, first)) = rebuilt {
        lemma_tells(config, problems, count, first@);
    }
}

/// A refused configuration is answered with how many errors it has and what the first says.
pub proof fn law_build_errors_name_the_first(e: BuildError, r: String)
    requires
        call_ensures(BuildError::text, (&e,), r),
    ensures
        e matches BuildError::Invalid(count, first) ==> r@ == "config has "@ + decimal(count as nat)
            + " validation error(s); first: "@ + first@,
{
}

/// A rebuild takes the configuration over, counts itself, keeps the other counts, starts the
/// meters over, and keeps the intent of every key that is still there and of no other.
pub proof fn law_a_rebuild_keeps_what_is_still_there<S: Sample>(
    val: spec_fn(S) -> real,
    before: HostView<S>,
    config: Config,
    after: HostView<S>,
    endpoint: Seq<char>,
    slot: u8,
)
    requires
        exact(val),
        obeyed(before, HostCommand::Rebuild(config), after, Ok::<bool, BuildError>(true)),
        in_order(before.talk),
    ensures
        after.config == config@,
        before.generation < u64::MAX ==> after.generation == before.generation + 1,
        after.blocks == before.blocks,
        after.late_ticks == before.late_ticks,
        after.in_peak.len() == config@.endpoints.len(),
        after.bus_peak.len() == config@.partylines.len(),
        after.out_peak.len() == after.engine.keys.len(),
        forall|i: int| 0 <= i < after.in_peak.len() ==> val(#[trigger] after.in_peak[i]) == 0 as real,
        forall|i: int| 0 <= i < after.bus_peak.len() ==> val(#[trigger] after.bus_peak[i]) == 0 as real,
        forall|i: int| 0 <= i < after.out_peak.len() ==> val(#[trigger] after.out_peak[i]) == 0 as real,
        in_order(after.talk),
        means_to_talk(after.talk, endpoint, slot) <==> has_key(config@, endpoint, slot) && means_to_talk(
            before.talk,
            endpoint,
            slot,
        ),
{
    let c = config@;
    let fresh = choose|fresh: EngineView<S>| #[trigger] rebuilt_from(before, c, fresh, after);
    lemma_filter_in_order(before.talk, still_there(c));
    let kept = before.talk.filter(still_there(c));
    lemma_endpoint_position(c.endpoints, endpoint, 0);
    lemma_kept(before.talk, still_there(c));
    if means_to_talk(kept, endpoint, slot) {
        let i = choose|i: int|
            0 <= i < kept.len() && (#[trigger] kept[i]).endpoint == endpoint && kept[i].slot == slot && kept[i].on;
        assert(key_exists(c, kept[i]));
        let e = c.endpoint_at(endpoint)->0;
        let k = choose|k: int| 0 <= k < c.endpoints[e].keys.len() && #[trigger] c.endpoints[e].keys[k].slot == slot;
        assert(c.endpoints[e].keys[k].slot == slot);
        assert(has_key(c, endpoint, slot));
        let j = choose|j: int| 0 <= j < before.talk.len() && before.talk[j] == kept[i];
        assert(before.talk[j].on);
    }
    if has_key(c, endpoint, slot) && means_to_talk(before.talk, endpoint, slot) {
        let (i, k) = choose|i: int, k: int|
            0 <= i < c.endpoints.len() && 0 <= k < c.endpoints[i].keys.len()
                && (#[trigger] c.endpoints[i].keys[k]).slot == slot && c.endpoints[i].id == endpoint;
        let e = c.endpoint_at(endpoint)->0;
        if e < i {
            assert(c.endpoints[e].id != c.endpoints[i].id);
        }
        assert(c.endpoints[e].keys[k].slot == slot);
        let j = choose|j: int|
            0 <= j < before.talk.len() && (#[trigger] before.talk[j]).endpoint == endpoint && before.talk[j].slot
                == slot && before.talk[j].on;
        assert(key_exists(c, before.talk[j]));
        assert(kept.contains(before.talk[j]));
        let m = choose|m: int| 0 <= m < kept.len() && kept[m] == before.talk[j];
        assert(kept[m].on);
    }
    assert forall|i: int| 0 <= i < after.in_peak.len() implies val(#[trigger] after.in_peak[i]) == 0 as real by {
        assert(whole_is(0, after.in_peak[i]));
    }
    assert forall|i: int| 0 <= i < after.bus_peak.len() implies val(#[trigger] after.bus_peak[i]) == 0 as real by {
        assert(whole_is(0, after.bus_peak[i]));
    }
    assert forall|i: int| 0 <= i < after.out_peak.len() implies val(#[trigger] after.out_peak[i]) == 0 as real by {
        assert(whole_is(0, after.out_peak[i]));
    }
}

/// A filtered list has what it was filtered for, and only that.
proof fn lemma_kept<T>(s: Seq<T>, keep: spec_fn(T) -> bool)
    ensures
        forall|i: int| 0 <= i < s.filter(keep).len() ==> keep(#[trigger] s.filter(keep)[i]) && s.contains(
            s.filter(keep)[i],
        ),
        forall|j: int| 0 <= j < s.len() && keep(#[trigger] s[j]) ==> s.filter(keep).contains(s[j]),
    decreases s.len(),
{
    reveal(Seq::filter);
    if s.len() > 0 {
        let rest = s.drop_last();
        lemma_kept(rest, keep);
        let (f, g) = (s.filter(keep), rest.filter(keep));
        assert forall|i: int| 0 <= i < f.len() implies keep(#[trigger] f[i]) && s.contains(f[i]) by {
            if i < g.len() {
                assert(f[i] == g[i]);
                let j = choose|j: int| 0 <= j < rest.len() && rest[j] == g[i];
                assert(s[j] == f[i]);
            } else {
                assert(f[i] == s[s.len() - 1]);
            }
        }
        assert forall|j: int| 0 <= j < s.len() && keep(#[trigger] s[j]) implies f.contains(s[j]) by {
            if j < rest.len() {
                assert(rest[j] == s[j]);
                let i = choose|i: int| 0 <= i < g.len() && g[i] == s[j];
                assert(f[i] == s[j]);
            } else {
                assert(f[g.len() as int] == s[j]);
            }
        }
    }
}

/// After a rebuild a key talks exactly where it is not there for listening only and was meant
/// to talk before; and the engine is a fresh one in everything else.
pub proof fn law_a_rebuild_drops_no_live_key<S: Sample>(
    before: HostView<S>,
    config: Config,
    after: HostView<S>,
    i: int,
    k: int,
)
    requires
        obeyed(before, HostCommand::Rebuild(config), after, Ok::<bool, BuildError>(true)),
        in_order(before.talk),
        0 <= i < config@.endpoints.len(),
        0 <= k < config@.endpoints[i].keys.len(),
    ensures
        ({
            let key = config@.endpoints[i].keys[k];
            let s = stream_of(config@.endpoints, i, k);
            after.engine.keys[s].talk_on <==> !(key.talk_mode is ListenOnly) && means_to_talk(
                before.talk,
                config@.endpoints[i].id,
                key.slot,
            )
        }),
        exists|fresh: EngineView<S>| #[trigger]
            compiled(config@, fresh) && after.engine == (EngineView { keys: after.engine.keys, ..fresh })
                && after.engine.keys.len() == fresh.keys.len() && forall|s: int|
                0 <= s < fresh.keys.len() ==> #[trigger] after.engine.keys[s] == (KeyRt {
                    talk_on: after.engine.keys[s].talk_on,
                    ..fresh.keys[s]
                }),
{
    let c = config@;
    law_talk_survives_a_rebuild(before, c, after, i, k);
    lemma_meaning(before.talk, c.endpoints[i].id, c.endpoints[i].keys[k].slot);
    let fresh = choose|fresh: EngineView<S>| #[trigger] rebuilt_from(before, c, fresh, after);
    let kept = before.talk.filter(still_there(c));
    lemma_replayed_shape(fresh, kept, kept.len() as int);
    assert(compiled(c, fresh));
}

/// A new host has its configuration, nobody who means to talk, and counts at nothing.
pub proof fn law_a_new_host_starts_from_nothing<S: Sample>(c: ConfigView, v: HostView<S>)
    requires
        host_fresh(c, v),
    ensures
        v.config == c,
        compiled(c, v.engine),
        v.talk.len() == 0,
        v.generation == 0,
        v.blocks == 0,
        v.late_ticks == 0,
        v.in_peak.len() == c.endpoints.len(),
        v.bus_peak.len() == c.partylines.len(),
        v.out_peak.len() == v.engine.keys.len(),
{
}

/// A block is counted, every meter is held at the louder of what it held and what the block
/// read, and nothing else of the host changes.
pub proof fn law_a_block_is_counted_and_metered<S: Sample>(
    val: spec_fn(S) -> real,
    before: HostView<S>,
    mic_in: Seq<S>,
    after: HostView<S>,
)
    requires
        exact(val),
        block_done(before, mic_in, after),
    ensures
        before.blocks < u64::MAX ==> after.blocks == before.blocks + 1,
        after.config == before.config,
        after.talk == before.talk,
        after.generation == before.generation,
        after.late_ticks == before.late_ticks,
        after.in_peak.len() == before.in_peak.len(),
        after.bus_peak.len() == before.bus_peak.len(),
        after.out_peak.len() == before.out_peak.len(),
        forall|i: int|
            0 <= i < before.in_peak.len() ==> louder(
                val(before.in_peak[i]),
                val(after.engine.input_peaks[i]),
                val(#[trigger] after.in_peak[i]),
            ),
        forall|i: int|
            0 <= i < before.bus_peak.len() ==> louder(
                val(before.bus_peak[i]),
                val(after.engine.bus_peaks[i]),
                val(#[trigger] after.bus_peak[i]),
            ),
        forall|i: int|
            0 <= i < before.out_peak.len() ==> louder(
                val(before.out_peak[i]),
                val(after.engine.output_peaks[i]),
                val(#[trigger] after.out_peak[i]),
            ),
{
    lemma_louder(val, before.in_peak, after.engine.input_peaks, after.in_peak);
    lemma_louder(val, before.bus_peak, after.engine.bus_peaks, after.bus_peak);
    lemma_louder(val, before.out_peak, after.engine.output_peaks, after.out_peak);
}

/// Whether `r` is one of two levels and below neither.
pub open spec fn louder(a: real, b: real, r: real) -> bool {
    (r == a || r == b) && r >= a && r >= b
}

proof fn lemma_louder<S: Sample>(val: spec_fn(S) -> real, before: Seq<S>, metered: Seq<S>, after: Seq<S>)
    requires
        exact(val),
        held(before, metered, after),
    ensures
        forall|i: int|
            0 <= i < before.len() ==> louder(val(before[i]), val(metered[i]), val(#[trigger] after[i])),
{
    assert forall|i: int| 0 <= i < before.len() implies louder(
        val(before[i]),
        val(metered[i]),
        val(#[trigger] after[i]),
    ) by {
        law_peaks_are_held(val, before, metered, after, i);
    }
}

/// A missed tick is counted, and changes nothing else.
pub proof fn law_missed_ticks_are_counted<S: Sample>(v: HostView<S>)
    requires
        v.late_ticks < u64::MAX,
    ensures
        tick_missed(v).late_ticks == v.late_ticks + 1,
        tick_missed(v) == (HostView { late_ticks: tick_missed(v).late_ticks, ..v }),
{
}

/// Snapshots are fifty milliseconds apart, and without a network twenty blocks are mixed per
/// wake instead of one.
pub proof fn law_the_loop_keeps_its_times(elapsed: u128, due: bool, many: usize, one: usize)
    requires
        call_ensures(publish_due, (elapsed,), due),
        call_ensures(blocks_per_wake, (true,), many),
        call_ensures(blocks_per_wake, (false,), one),
    ensures
        due <==> elapsed >= 50 * 1_000_000,
        many == 20,
        one == 1,
{
}

/// What is shown of the clock is what its port and the media timeline report.
pub proof fn law_clock_health_is_what_the_port_reports(status: PtpStatus, realignments: u64, r: PtpHealth)
    requires
        call_ensures(PtpHealth::new, (status, realignments), r),
    ensures
        r.state == status.state,
        r.grandmaster == status.grandmaster,
        r.offset_nanos == status.offset_nanos,
        r.steps == status.steps,
        r.realignments == realignments,
{
}

/// Whether, under `val`, a logarithm is what `log` says.
pub open spec fn logarithms<S: Sample>(val: spec_fn(S) -> real, log: spec_fn(real) -> real) -> bool {
    forall|a: S, r: S| #[trigger] logarithm_is(a, r) ==> val(r) == log(val(a))
}

/// Whether `db` is a level as it is shown: twenty times its logarithm, and -120 for a
/// millionth and below.
pub open spec fn shown<S: Sample>(val: spec_fn(S) -> real, log: spec_fn(real) -> real, level: S, db: S) -> bool {
    exists|floor: S| #[trigger]
        bits_are(0x3586_37BD, floor) && (val(level) <= val(floor) ==> val(db) == -120 as real) && (val(level) > val(
            floor,
        ) ==> val(db) == (20 as real) * log(val(level)))
}

/// In exact arithmetic a level is shown as twenty times its logarithm, and as -120 where it is
/// next to nothing.
pub proof fn law_levels_are_shown_in_decibels<S: Sample>(
    val: spec_fn(S) -> real,
    log: spec_fn(real) -> real,
    level: S,
    db: S,
)
    requires
        exact(val),
        logarithms(val, log),
        call_ensures(linear_to_db::<S>, (level,), db),
    ensures
        shown(val, log, level, db),
{
    let w = choose|w: DecibelSteps<S>| #[trigger] decibels_by(level, w, db);
    assert(decibels_by(level, w, db));
    assert(bits_are(0x3586_37BD, w.floor));
}

proof fn lemma_level<S: Sample>(
    val: spec_fn(S) -> real,
    log: spec_fn(real) -> real,
    id: Seq<char>,
    peak: S,
    level: Level<S>,
)
    requires
        exact(val),
        logarithms(val, log),
        level_is_of(id, peak, level),
    ensures
        level.id@ == id,
        shown(val, log, peak, level.db),
{
    let w = choose|w: DecibelSteps<S>| #[trigger] decibels_by(peak, w, level.db);
    assert(decibels_by(peak, w, level.db));
    assert(bits_are(0x3586_37BD, w.floor));
}

/// A snapshot shows the level of every endpoint, bus and key under its own name, and the counts
/// as they are.
pub proof fn law_a_snapshot_shows_every_meter<S: Sample>(
    val: spec_fn(S) -> real,
    log: spec_fn(real) -> real,
    before: HostView<S>,
    simulated: bool,
    health: Vec<StreamHealth<S>>,
    ptp: Option<PtpHealth>,
    snap: Snapshot<S>,
    after: HostView<S>,
)
    requires
        exact(val),
        logarithms(val, log),
        published(before, simulated, health, ptp, snap, after),
    ensures
        snap.generation == before.generation,
        snap.blocks == before.blocks,
        snap.late_ticks == before.late_ticks,
        snap.simulated == simulated,
        snap.health == health,
        snap.ptp == ptp,
        snap.inputs@.len() == before.config.endpoints.len(),
        snap.buses@.len() == before.config.partylines.len(),
        snap.outputs@.len() == before.engine.keys.len(),
        forall|i: int|
            0 <= i < snap.inputs@.len() ==> (#[trigger] snap.inputs@[i]).id@ == before.config.endpoints[i].id && shown(
                val,
                log,
                before.in_peak[i],
                snap.inputs@[i].db,
            ),
        forall|i: int|
            0 <= i < snap.buses@.len() ==> (#[trigger] snap.buses@[i]).id@ == before.config.partylines[i].id && shown(
                val,
                log,
                before.bus_peak[i],
                snap.buses@[i].db,
            ),
        forall|s: int|
            0 <= s < snap.outputs@.len() ==> {
                let k = before.engine.keys[s];
                &&& (#[trigger] snap.outputs@[s]).id@ == before.config.endpoints[k.endpoint as int].id + seq![':']
                    + decimal(k.slot as nat)
                &&& shown(val, log, before.out_peak[s], snap.outputs@[s].db)
            },
{
    reveal_strlit(":");
    assert(":"@ =~= seq![':']);
    assert forall|i: int| 0 <= i < snap.inputs@.len() implies (#[trigger] snap.inputs@[i]).id@
        == before.config.endpoints[i].id && shown(val, log, before.in_peak[i], snap.inputs@[i].db) by {
        lemma_level(val, log, before.config.endpoints[i].id, before.in_peak[i], snap.inputs@[i]);
    }
    assert forall|i: int| 0 <= i < snap.buses@.len() implies (#[trigger] snap.buses@[i]).id@
        == before.config.partylines[i].id && shown(val, log, before.bus_peak[i], snap.buses@[i].db) by {
        lemma_level(val, log, before.config.partylines[i].id, before.bus_peak[i], snap.buses@[i]);
    }
    assert forall|s: int| 0 <= s < snap.outputs@.len() implies ({
        let k = before.engine.keys[s];
        &&& (#[trigger] snap.outputs@[s]).id@ == before.config.endpoints[k.endpoint as int].id + seq![':'] + decimal(
            k.slot as nat,
        )
        &&& shown(val, log, before.out_peak[s], snap.outputs@[s].db)
    }) by {
        let k = before.engine.keys[s];
        let id = before.config.endpoints[k.endpoint as int].id + ":"@ + decimal(k.slot as nat);
        lemma_level(val, log, id, before.out_peak[s], snap.outputs@[s]);
    }
}

/// Publishing starts every meter over and changes nothing else.
pub proof fn law_publishing_starts_the_meters_over<S: Sample>(
    val: spec_fn(S) -> real,
    before: HostView<S>,
    simulated: bool,
    health: Vec<StreamHealth<S>>,
    ptp: Option<PtpHealth>,
    snap: Snapshot<S>,
    after: HostView<S>,
)
    requires
        exact(val),
        published(before, simulated, health, ptp, snap, after),
    ensures
        after.config == before.config,
        after.engine == before.engine,
        after.talk == before.talk,
        after.generation == before.generation,
        after.blocks == before.blocks,
        after.late_ticks == before.late_ticks,
        after.in_peak.len() == before.config.endpoints.len(),
        after.bus_peak.len() == before.config.partylines.len(),
        after.out_peak.len() == before.engine.keys.len(),
        forall|i: int| 0 <= i < after.in_peak.len() ==> val(#[trigger] after.in_peak[i]) == 0 as real,
        forall|i: int| 0 <= i < after.bus_peak.len() ==> val(#[trigger] after.bus_peak[i]) == 0 as real,
        forall|i: int| 0 <= i < after.out_peak.len() ==> val(#[trigger] after.out_peak[i]) == 0 as real,
{
    assert forall|i: int| 0 <= i < after.in_peak.len() implies val(#[trigger] after.in_peak[i]) == 0 as real by {
        assert(whole_is(0, after.in_peak[i]));
    }
    assert forall|i: int| 0 <= i < after.bus_peak.len() implies val(#[trigger] after.bus_peak[i]) == 0 as real by {
        assert(whole_is(0, after.bus_peak[i]));
    }
    assert forall|i: int| 0 <= i < after.out_peak.len() implies val(#[trigger] after.out_peak[i]) == 0 as real by {
        assert(whole_is(0, after.out_peak[i]));
    }
}

/// A snapshot lists exactly the keys that are meant to talk, by name and slot.
pub proof fn law_a_snapshot_lists_who_talks<S: Sample>(
    before: HostView<S>,
    simulated: bool,
    health: Vec<StreamHealth<S>>,
    ptp: Option<PtpHealth>,
    snap: Snapshot<S>,
    after: HostView<S>,
    text: Seq<char>,
)
    requires
        published(before, simulated, health, ptp, snap, after),
    ensures
        labels_view(snap.talking@).contains(text) <==> exists|endpoint: Seq<char>, slot: u8| #[trigger]
            means_to_talk(before.talk, endpoint, slot) && text == endpoint + seq![':'] + decimal(slot as nat),
{
    reveal_strlit(":");
    assert(":"@ =~= seq![':']);
    let talk = before.talk;
    let on = talk.filter(is_on());
    lemma_kept(talk, is_on());
    let list = talking(talk);
    if list.contains(text) {
        let i = choose|i: int| 0 <= i < list.len() && list[i] == text;
        assert(is_on()(on[i]));
        let j = choose|j: int| 0 <= j < talk.len() && talk[j] == on[i];
        assert(talk[j].on);
        assert(means_to_talk(talk, on[i].endpoint, on[i].slot));
    }
    if exists|endpoint: Seq<char>, slot: u8| #[trigger]
        means_to_talk(talk, endpoint, slot) && text == endpoint + seq![':'] + decimal(slot as nat) {
        let (endpoint, slot) = choose|endpoint: Seq<char>, slot: u8| #[trigger]
            means_to_talk(talk, endpoint, slot) && text == endpoint + seq![':'] + decimal(slot as nat);
        let j = choose|j: int|
            0 <= j < talk.len() && (#[trigger] talk[j]).endpoint == endpoint && talk[j].slot == slot && talk[j].on;
        assert(is_on()(talk[j]));
        assert(on.contains(talk[j]));
        let i = choose|i: int| 0 <= i < on.len() && on[i] == talk[j];
        assert(list[i] == text);
    }
}

/// The keys that talk are listed in the order of their intents, each once.
pub proof fn law_talkers_are_listed_in_order<S: Sample>(
    before: HostView<S>,
    simulated: bool,
    health: Vec<StreamHealth<S>>,
    ptp: Option<PtpHealth>,
    snap: Snapshot<S>,
    after: HostView<S>,
) -> (at: Seq<int>)
    requires
        published(before, simulated, health, ptp, snap, after),
    ensures
        at.len() == snap.talking@.len(),
        forall|i: int, j: int| 0 <= i < j < at.len() ==> #[trigger] at[i] < #[trigger] at[j],
        forall|i: int|
            0 <= i < at.len() ==> {
                let t = before.talk[#[trigger] at[i]];
                &&& 0 <= at[i] < before.talk.len()
                &&& t.on
                &&& snap.talking@[i]@ == t.endpoint + seq![':'] + decimal(t.slot as nat)
            },
        forall|k: int| 0 <= k < before.talk.len() && (#[trigger] before.talk[k]).on ==> at.contains(k),
{
    reveal_strlit(":");
    assert(":"@ =~= seq![':']);
    let at = lemma_filter_positions(before.talk, is_on());
    let list = labels_view(snap.talking@);
    assert(list == talking(before.talk));
    assert(list.len() == snap.talking@.len());
    assert(talking(before.talk).len() == before.talk.filter(is_on()).len());
    assert forall|i: int| 0 <= i < at.len() implies ({
        let t = before.talk[#[trigger] at[i]];
        &&& 0 <= at[i] < before.talk.len()
        &&& t.on
        &&& snap.talking@[i]@ == t.endpoint + seq![':'] + decimal(t.slot as nat)
    }) by {
        assert(is_on()(before.talk[at[i]]));
        assert(list[i] == snap.talking@[i]@);
    }
    assert forall|k: int| 0 <= k < before.talk.len() && (#[trigger] before.talk[k]).on implies at.contains(k) by {
        assert(is_on()(before.talk[k]));
    }
    at
}

/// A host reports the configuration and the engine that it holds, and a talk map its intents by
/// their places.
pub proof fn law_hosts_report_what_they_hold<S: Sample>(
    host: HostState<S>,
    config: &Config,
    engine: &Engine<S>,
    map: TalkMap,
    n: usize,
    i: usize,
    intent: (&str, u8, bool),
)
    requires
        call_ensures(HostState::<S>::config, (&host,), config),
        call_ensures(HostState::<S>::engine, (&host,), engine),
        call_ensures(TalkMap::len, (&map,), n),
        call_ensures(TalkMap::get, (&map, i), intent),
    ensures
        config@ == host@.config,
        engine@ == host@.engine,
        n == map@.len(),
        intent.0@ == map@[i as int].endpoint,
        intent.1 == map@[i as int].slot,
        intent.2 == map@[i as int].on,
{
}

} // verus!
