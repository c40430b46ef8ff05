//! The engine: a state machine that turns one block of microphones into one block for
//! every key.

use vstd::prelude::*;
use vstd::string::StringExecFns;

use crate::config::coherence::{coherent, coherent_keys, lemma_coherent, lemma_errors_first, reachable};
use crate::config::findings::{
    errors, findings, is_error, is_warning, problems_view, ranked_findings, Problem, Severity,
};
use crate::config::model::{
    lemma_endpoint_position, lemma_partyline_position, Config, ConfigView, Endpoint, EndpointId, KeyTarget,
    MAX_KEYS,
};
use crate::engine::kernels::{
    fade_row, mix_minus_row, peak_of, scale_row, silence_row, silent_vec, sum_row,
};
use crate::engine::laws::law_streams_are_in_order;
use crate::engine::limiter::Limiter;
use crate::engine::order::{
    below, lemma_below_all, lemma_below_bounds, lemma_below_grows, lemma_below_step, lemma_rank_inside, rank,
    slot_taken, slots_distinct, stream_of,
};
use crate::engine::plan::{
    applied, block_mixed, buffers_fit, bus_inputs, bus_sample, buses_mixed, call_position, compiled,
    compiled_at, contributed, contributed_by, contributions_mixed, fed, fed_by, input_staged, inputs_mixed,
    key_compiled, lemma_call_position, level_is, offset, output_staged, outputs_mixed, ramp_by, same_settings,
    scaled_by, stream_mixed, stream_position, streams_ordered, with_endpoint, with_key, Command, EndpointRt,
    EngineView, KeyRt, RampSteps, Source, StreamRoute,
};
use crate::engine::rows::{chunk, lemma_row_inside, lemma_with_chunk, row, row_mut};
use crate::sample::{
    bits_are, db_to_linear, lemma_total_start, lemma_total_step, peak_is, ratio, sum_is, total_is, Sample,
};
use crate::text::{decimal, push_decimal};

verus! {

/// Why a config could not be compiled into a routing table.
#[derive(Debug)]
pub enum BuildError {
    /// The number of validation errors, and the first of them.
    Invalid(usize, String),
}

impl BuildError {
    /// What the error says.
    pub open spec fn says(&self) -> Seq<char> {
        match self {
            BuildError::Invalid(count, first) => "config has "@ + decimal(*count as nat)
                + " validation error(s); first: "@ + first@,
        }
    }

    /// What the error says.
    pub fn text(&self) -> (r: String)
        ensures
            r@ == self.says(),
    {
        match self {
            BuildError::Invalid(count, first) => {
                let mut out = String::from_str("config has ");
                push_decimal(&mut out, *count as u64);
                out.append(" validation error(s); first: ");
                out.append(first.as_str());
                out
            },
        }
    }
}

/// Peak levels for one block, for metering. Linear, not dB.
pub struct Meters<S> {
    /// Peak of each endpoint's microphone, after input gain, before the talk gate.
    pub inputs: Vec<S>,
    /// Peak of each bus sum.
    pub buses: Vec<S>,
    /// Peak of each output stream, after the limiter.
    pub outputs: Vec<S>,
}

/// The mix-minus engine.
pub struct Engine<S> {
    block: usize,
    ramp_step: S,
    endpoint_ids: Vec<EndpointId>,
    endpoints: Vec<EndpointRt<S>>,
    keys: Vec<KeyRt<S>>,
    bus_ids: Vec<String>,
    mic: Vec<S>,
    shares: Vec<S>,
    bus: Vec<S>,
    out: Vec<S>,
    routes: Vec<StreamRoute>,
    meters: Meters<S>,
}

impl<S: Sample> View for Engine<S> {
    type V = EngineView<S>;

    closed spec fn view(&self) -> EngineView<S> {
        EngineView {
            block: self.block as int,
            ramp_step: self.ramp_step,
            endpoint_ids: Seq::new(self.endpoint_ids@.len(), |i: int| self.endpoint_ids@[i]@),
            endpoints: self.endpoints@,
            keys: self.keys@,
            bus_ids: Seq::new(self.bus_ids@.len(), |i: int| self.bus_ids@[i]@),
            mic: self.mic@,
            shares: self.shares@,
            bus: self.bus@,
            out: self.out@,
            input_peaks: self.meters.inputs@,
            bus_peaks: self.meters.buses@,
            output_peaks: self.meters.outputs@,
        }
    }
}

/// The route of each stream.
pub open spec fn routes_of<S>(keys: Seq<KeyRt<S>>) -> Seq<StreamRoute> {
    Seq::new(keys.len(), |s: int| StreamRoute { endpoint: keys[s].endpoint, slot: keys[s].slot })
}

proof fn lemma_offset_grows(c: ConfigView, i: int, n: int)
    requires
        0 <= i <= n <= c.endpoints.len(),
    ensures
        0 <= offset(c.endpoints, i) <= offset(c.endpoints, n),
        i < n ==> offset(c.endpoints, i) + c.endpoints[i].keys.len() <= offset(c.endpoints, n),
    decreases n,
{
    if i < n {
        lemma_offset_grows(c, i, n - 1);
    } else if n > 0 {
        lemma_offset_grows(c, n - 1, n - 1);
    }
}

/// The ranges in which a compiled key's indices lie.
spec fn in_range<S>(k: KeyRt<S>, endpoints: int, buses: int, streams: int) -> bool {
    &&& k.endpoint < endpoints
    &&& match k.source {
        Source::Bus(b) => b < buses,
        Source::Direct(Some(t)) => t < streams,
        Source::Direct(None) => true,
    }
    &&& match k.contributes_to {
        Some(b) => b < buses,
        None => true,
    }
}

/// The stream of each endpoint's first key.
fn offsets_of(config: &Config) -> (r: Vec<usize>)
    requires
        offset(config@.endpoints, config@.endpoints.len() as int) <= usize::MAX,
    ensures
        r@.len() == config@.endpoints.len() + 1,
        forall|i: int| 0 <= i <= config@.endpoints.len() ==> #[trigger] r@[i] == offset(config@.endpoints, i),
{
    let ghost c = config@;
    let mut out: Vec<usize> = Vec::new();
    out.push(0);
    let mut i: usize = 0;
    while i < config.endpoints.len()
        invariant
            i <= config.endpoints@.len(),
            c == config@,
            offset(c.endpoints, c.endpoints.len() as int) <= usize::MAX,
            out@.len() == i + 1,
            forall|j: int| 0 <= j <= i ==> #[trigger] out@[j] == offset(c.endpoints, j),
        decreases config.endpoints@.len() - i,
    {
        proof {
            lemma_offset_grows(c, i as int, i + 1);
            lemma_offset_grows(c, i + 1, c.endpoints.len() as int);
        }
        let next: usize = out[i] + config.endpoints[i].keys.len();
        out.push(next);
        i += 1;
    }
    out
}

/// The gain of an authored level.
fn level<S: Sample>(l: crate::config::model::Single) -> (gain: S)
    ensures
        level_is(l, gain),
{
    let db = S::from_bits(l.bits);
    assert(bits_are(l.bits, db));
    db_to_linear(db)
}

/// The first key of an endpoint with a direct path to the other.
fn find_call(e: &Endpoint, other: &EndpointId) -> (r: Option<usize>)
    ensures
        match r {
            Some(k) => call_position(e@, other@, 0) == Some(k as int) && k < e@.keys.len(),
            None => call_position(e@, other@, 0) is None,
        },
{
    let mut k: usize = 0;
    while k < e.keys.len()
        invariant
            k <= e.keys@.len(),
            call_position(e@, other@, 0) == call_position(e@, other@, k as int),
        decreases e.keys@.len() - k,
    {
        if e.keys[k].target.is_direct_to(other) {
            return Some(k);
        }
        k += 1;
    }
    None
}

/// How many keys of an endpoint sit in smaller slots than key `k`.
fn rank_of(e: &Endpoint, k: usize) -> (r: usize)
    requires
        k < e@.keys.len(),
    ensures
        r == rank(e@.keys, k as int),
{
    let slot: u8 = e.keys[k].slot;
    let mut r: usize = 0;
    let mut n: usize = 0;
    while n < e.keys.len()
        invariant
            n <= e.keys@.len(),
            r <= n,
            r == below(e@.keys, slot as int, n as int),
        decreases e.keys@.len() - n,
    {
        if e.keys[n].slot < slot {
            r += 1;
        }
        n += 1;
    }
    r
}

/// The key in a slot.
fn find_slot(e: &Endpoint, slot: u8) -> (r: Option<usize>)
    ensures
        match r {
            Some(k) => k < e@.keys.len() && e@.keys[k as int].slot == slot,
            None => !slot_taken(e@.keys, slot as int, e@.keys.len() as int),
        },
{
    let mut k: usize = 0;
    while k < e.keys.len()
        invariant
            k <= e.keys@.len(),
            forall|m: int| 0 <= m < k ==> (#[trigger] e@.keys[m]).slot != slot,
        decreases e.keys@.len() - k,
    {
        if e.keys[k].slot == slot {
            return Some(k);
        }
        k += 1;
    }
    None
}

/// Resolves one key of a coherent configuration.
fn compile_key<S: Sample>(
    config: &Config,
    i: usize,
    k: usize,
    offsets: &Vec<usize>,
    trims: &Vec<S>,
    rate: S,
) -> (rt: KeyRt<S>)
    requires
        coherent(config@),
        i < config@.endpoints.len(),
        k < config@.endpoints[i as int].keys.len(),
        offset(config@.endpoints, config@.endpoints.len() as int) <= usize::MAX,
        offsets@.len() == config@.endpoints.len() + 1,
        forall|j: int| 0 <= j <= config@.endpoints.len() ==> #[trigger] offsets@[j] == offset(config@.endpoints, j),
        trims@.len() == config@.partylines.len(),
        forall|b: int| 0 <= b < trims@.len() ==> level_is(config@.partylines[b].bus_trim_db, #[trigger] trims@[b]),
    ensures
        key_compiled(config@, i as int, k as int, rate, rt),
        in_range(
            rt,
            config@.endpoints.len() as int,
            config@.partylines.len() as int,
            offset(config@.endpoints, config@.endpoints.len() as int),
        ),
{
    let ghost c = config@;
    let key = &config.endpoints[i].keys[k];
    proof {
        assert(coherent_keys(c, c.endpoints[i as int]));
        assert(reachable(c, c.endpoints[i as int], c.endpoints[i as int].keys[k as int]));
        assert(c.endpoints[i as int].keys[k as int] == key@);
    }
    let can_talk = key.talk_mode.can_talk();
    let (source, contributes_to, share_trim) = match &key.target {
        KeyTarget::Partyline(pid) => {
            let b: usize = match config.partyline_index(pid) {
                Some(b) => b,
                None => 0,
            };
            proof {
                lemma_partyline_position(c.partylines, pid@, 0);
            }
            let contributes = if can_talk {
                Some(b)
            } else {
                None
            };
            (Source::Bus(b), contributes, trims[b])
        },
        KeyTarget::Direct(other) => {
            let far: usize = match config.endpoint_index(other) {
                Some(far) => far,
                None => 0,
            };
            proof {
                lemma_endpoint_position(c.endpoints, other@, 0);
                lemma_call_position(c.endpoints[far as int], c.endpoints[i as int].id, 0);
                lemma_offset_grows(c, far as int, c.endpoints.len() as int);
            }
            let back = match find_call(&config.endpoints[far], &config.endpoints[i].id) {
                Some(m) => {
                    proof {
                        assert(coherent_keys(c, c.endpoints[far as int]));
                        lemma_rank_inside(c.endpoints[far as int].keys, m as int);
                    }
                    Some(offsets[far] + rank_of(&config.endpoints[far], m))
                },
                None => None,
            };
            (Source::Direct(back), None, S::whole(1))
        },
    };
    KeyRt {
        endpoint: i,
        slot: key.slot,
        source,
        contributes_to,
        share_trim,
        listen_gain: level::<S>(key.listen_level_db),
        listen_muted: key.listen_muted,
        can_talk,
        talk_on: false,
        ramp: S::whole(0),
        limiter: Limiter::new(rate),
    }
}

/// Resolves every key of a coherent configuration, endpoint by endpoint and slot by slot.
fn compile_keys<S: Sample>(config: &Config, offsets: &Vec<usize>, trims: &Vec<S>, rate: S) -> (keys: Vec<KeyRt<S>>)
    requires
        coherent(config@),
        offset(config@.endpoints, config@.endpoints.len() as int) <= usize::MAX,
        offsets@.len() == config@.endpoints.len() + 1,
        forall|j: int| 0 <= j <= config@.endpoints.len() ==> #[trigger] offsets@[j] == offset(config@.endpoints, j),
        trims@.len() == config@.partylines.len(),
        forall|b: int| 0 <= b < trims@.len() ==> level_is(config@.partylines[b].bus_trim_db, #[trigger] trims@[b]),
    ensures
        keys@.len() == offset(config@.endpoints, config@.endpoints.len() as int),
        forall|i: int, k: int|
            #![trigger config@.endpoints[i].keys[k]]
            0 <= i < config@.endpoints.len() && 0 <= k < config@.endpoints[i].keys.len() ==> key_compiled(
                config@,
                i,
                k,
                rate,
                keys@[stream_of(config@.endpoints, i, k)],
            ),
        forall|s: int|
            0 <= s < keys@.len() ==> in_range(
                #[trigger] keys@[s],
                config@.endpoints.len() as int,
                config@.partylines.len() as int,
                offset(config@.endpoints, config@.endpoints.len() as int),
            ),
{
    let ghost c = config@;
    let ghost total = offset(c.endpoints, c.endpoints.len() as int);
    let mut keys: Vec<KeyRt<S>> = Vec::new();
    let mut i: usize = 0;
    while i < config.endpoints.len()
        invariant
            i <= c.endpoints.len(),
            c == config@,
            total == offset(c.endpoints, c.endpoints.len() as int),
            coherent(c),
            total <= usize::MAX,
            offsets@.len() == c.endpoints.len() + 1,
            forall|j: int| 0 <= j <= c.endpoints.len() ==> #[trigger] offsets@[j] == offset(c.endpoints, j),
            trims@.len() == c.partylines.len(),
            forall|b: int| 0 <= b < trims@.len() ==> level_is(c.partylines[b].bus_trim_db, #[trigger] trims@[b]),
            keys@.len() == offset(c.endpoints, i as int),
            forall|a: int, k: int|
                #![trigger c.endpoints[a].keys[k]]
                0 <= a < i && 0 <= k < c.endpoints[a].keys.len() ==> key_compiled(
                    c,
                    a,
                    k,
                    rate,
                    keys@[stream_of(c.endpoints, a, k)],
                ),
            forall|s: int|
                0 <= s < keys@.len() ==> in_range(
                    #[trigger] keys@[s],
                    c.endpoints.len() as int,
                    c.partylines.len() as int,
                    total,
                ),
        decreases c.endpoints.len() - i,
    {
        let ghost ks = c.endpoints[i as int].keys;
        let ghost n = ks.len() as int;
        proof {
            assert(coherent_keys(c, c.endpoints[i as int]));
            lemma_below_bounds(ks, 0, n);
        }
        let mut slot: u8 = 0;
        while slot < MAX_KEYS as u8
            invariant
                i < c.endpoints.len(),
                slot <= MAX_KEYS,
                c == config@,
                ks == c.endpoints[i as int].keys,
                n == ks.len(),
                slots_distinct(ks),
                total == offset(c.endpoints, c.endpoints.len() as int),
                coherent(c),
                total <= usize::MAX,
                offsets@.len() == c.endpoints.len() + 1,
                forall|j: int| 0 <= j <= c.endpoints.len() ==> #[trigger] offsets@[j] == offset(c.endpoints, j),
                trims@.len() == c.partylines.len(),
                forall|b: int| 0 <= b < trims@.len() ==> level_is(c.partylines[b].bus_trim_db, #[trigger] trims@[b]),
                keys@.len() == offset(c.endpoints, i as int) + below(ks, slot as int, n),
                forall|a: int, m: int|
                    #![trigger c.endpoints[a].keys[m]]
                    0 <= a <= i && 0 <= m < c.endpoints[a].keys.len() && (a < i || c.endpoints[a].keys[m].slot < slot)
                        ==> key_compiled(c, a, m, rate, keys@[stream_of(c.endpoints, a, m)]),
                forall|s: int|
                    0 <= s < keys@.len() ==> in_range(
                        #[trigger] keys@[s],
                        c.endpoints.len() as int,
                        c.partylines.len() as int,
                        total,
                    ),
            decreases MAX_KEYS - slot,
        {
            let ghost before = keys@;
            proof {
                lemma_below_step(ks, slot as int, n);
            }
            if let Some(k) = find_slot(&config.endpoints[i], slot) {
                assert(ks[k as int].slot == slot);
                let rt = compile_key(config, i, k, offsets, trims, rate);
                keys.push(rt);
                assert(keys@[stream_of(c.endpoints, i as int, k as int)] == rt);
            }
            proof {
                assert forall|a: int, m: int|
                    #![trigger c.endpoints[a].keys[m]]
                    0 <= a <= i && 0 <= m < c.endpoints[a].keys.len() && (a < i || c.endpoints[a].keys[m].slot < slot
                        + 1) implies key_compiled(c, a, m, rate, keys@[stream_of(c.endpoints, a, m)]) by {
                    let s = stream_of(c.endpoints, a, m);
                    assert(coherent_keys(c, c.endpoints[a]));
                    lemma_rank_inside(c.endpoints[a].keys, m);
                    lemma_offset_grows(c, a, i as int);
                    lemma_below_bounds(ks, slot as int, n);
                    if a < i || ks[m].slot < slot {
                        if a == i {
                            lemma_below_grows(ks, ks[m].slot + 1, slot as int, n);
                        }
                        assert(0 <= s < before.len());
                        assert(keys@[s] == before[s]);
                    } else {
                        let k = choose|k: int| 0 <= k < n && (#[trigger] ks[k]).slot == slot;
                        assert(ks[m].slot == slot);
                    }
                }
            }
            slot += 1;
        }
        proof {
            lemma_below_all(ks, MAX_KEYS as int, n);
            assert forall|a: int, k: int|
                #![trigger c.endpoints[a].keys[k]]
                0 <= a < i + 1 && 0 <= k < c.endpoints[a].keys.len() implies key_compiled(
                c,
                a,
                k,
                rate,
                keys@[stream_of(c.endpoints, a, k)],
            ) by {
                assert(coherent_keys(c, c.endpoints[a]));
                assert(c.endpoints[a].keys[k].slot < MAX_KEYS);
            }
        }
        i += 1;
    }
    keys
}

impl<S: Sample> Engine<S> {
    /// The engine's invariant: its buffers and indices fit together.
    pub closed spec fn wf(&self) -> bool {
        &&& self@.well_formed()
        &&& self.routes@ == routes_of(self.keys@)
        &&& self.mic@.len() <= usize::MAX
    }

    /// The invariant in terms of the mathematical value.
    pub proof fn lemma_wf(&self)
        requires
            self.wf(),
        ensures
            self@.well_formed(),
    {
    }

    /// Compile a config into a routing table.
    ///
    /// Fails if the config has validation errors; warnings are ignored.
    pub fn new(config: &Config) -> (r: Result<Self, BuildError>)
        requires
            coherent(config@) ==> buffers_fit(config@),
        ensures
            match r {
                Ok(engine) => {
                    &&& coherent(config@)
                    &&& engine.wf()
                    &&& compiled(config@, engine@)
                    &&& streams_ordered(engine@.keys)
                },
                Err(BuildError::Invalid(count, first)) => {
                    &&& !coherent(config@)
                    &&& count == errors(config@).len()
                    &&& first@ == errors(config@)[0].message
                },
            },
    {
        let ghost c = config@;
        let problems = config.validate();
        let count = count_errors(&problems);
        proof {
            lemma_coherent(c);
            lemma_errors_first(c);
            lemma_ranked_count(c);
        }
        if count > 0 {
            assert(problems_view(problems@)[0] == problems@[0]@);
            return Err(BuildError::Invalid(count, problems[0].message.clone()));
        }
        let block: usize = config.system.ptime_samples as usize;
        let rate = S::whole(config.system.sample_rate as i64);
        let n_ep: usize = config.endpoints.len();
        let n_bus: usize = config.partylines.len();
        proof {
            lemma_offset_grows(c, 0, c.endpoints.len() as int);
            let total = offset(c.endpoints, c.endpoints.len() as int);
            assert(total <= total * block) by (nonlinear_arith)
                requires
                    total >= 0,
                    block >= 1,
            ;
        }
        let mut bus_ids: Vec<String> = Vec::new();
        let mut trims: Vec<S> = Vec::new();
        let mut b: usize = 0;
        while b < n_bus
            invariant
                b <= n_bus,
                n_bus == config.partylines@.len(),
                c == config@,
                bus_ids@.len() == b,
                trims@.len() == b,
                forall|j: int| 0 <= j < b ==> #[trigger] bus_ids@[j]@ == c.partylines[j].id,
                forall|j: int| 0 <= j < b ==> level_is(c.partylines[j].bus_trim_db, #[trigger] trims@[j]),
            decreases n_bus - b,
        {
            bus_ids.push(config.partylines[b].id.0.clone());
            trims.push(level::<S>(config.partylines[b].bus_trim_db));
            b += 1;
        }
        let offsets = offsets_of(config);
        let keys = compile_keys(config, &offsets, &trims, rate);
        let mut endpoint_ids: Vec<EndpointId> = Vec::new();
        let mut endpoints: Vec<EndpointRt<S>> = Vec::new();
        let mut e: usize = 0;
        while e < n_ep
            invariant
                e <= n_ep,
                n_ep == config.endpoints@.len(),
                c == config@,
                endpoint_ids@.len() == e,
                endpoints@.len() == e,
                forall|j: int| 0 <= j < e ==> #[trigger] endpoint_ids@[j]@ == c.endpoints[j].id,
                forall|j: int|
                    0 <= j < e ==> level_is(c.endpoints[j].input_gain_db, (#[trigger] endpoints@[j]).input_gain)
                        && endpoints@[j].input_muted == c.endpoints[j].input_muted,
            decreases n_ep - e,
        {
            endpoint_ids.push(config.endpoints[e].id.clone());
            endpoints.push(
                EndpointRt {
                    input_gain: level::<S>(config.endpoints[e].input_gain_db),
                    input_muted: config.endpoints[e].input_muted,
                },
            );
            e += 1;
        }
        let mut routes: Vec<StreamRoute> = Vec::new();
        let mut s: usize = 0;
        while s < keys.len()
            invariant
                s <= keys@.len(),
                routes@ == routes_of(keys@).take(s as int),
            decreases keys@.len() - s,
        {
            routes.push(StreamRoute { endpoint: keys[s].endpoint, slot: keys[s].slot });
            s += 1;
            assert(routes@ =~= routes_of(keys@).take(s as int));
        }
        assert(routes@ =~= routes_of(keys@));
        let authored = S::from_bits(config.system.talk_ramp_ms.bits);
        let least = ratio::<S>(1, 10);
        let ms = authored.greater(least);
        let thousandth = ratio::<S>(1, 1000);
        let seconds = ms.times(thousandth);
        let samples = seconds.times(rate);
        let one = S::whole(1);
        let ramp_step = one.over(samples);
        assert(ramp_by(
            c.system.talk_ramp_ms,
            rate,
            RampSteps { authored, least, ms, thousandth, seconds, rate, samples, one },
            ramp_step,
        ));
        let n_streams: usize = keys.len();
        let engine = Engine {
            block,
            ramp_step,
            endpoint_ids,
            endpoints,
            keys,
            bus_ids,
            mic: silent_vec(n_ep * block),
            shares: silent_vec(n_streams * block),
            bus: silent_vec(n_bus * block),
            out: silent_vec(n_streams * block),
            routes,
            meters: Meters {
                inputs: silent_vec(n_ep),
                buses: silent_vec(n_bus),
                outputs: silent_vec(n_streams),
            },
        };
        proof {
            let v = engine@;
            assert forall|i: int|
                #![trigger c.endpoints[i]]
                0 <= i < c.endpoints.len() implies v.endpoint_ids[i] == c.endpoints[i].id && level_is(
                c.endpoints[i].input_gain_db,
                v.endpoints[i].input_gain,
            ) && v.endpoints[i].input_muted == c.endpoints[i].input_muted by {
                assert(engine.endpoint_ids@[i]@ == c.endpoints[i].id);
                let rt = engine.endpoints@[i];
            }
            assert forall|j: int| 0 <= j < c.partylines.len() implies v.bus_ids[j] == (#[trigger] c.partylines[j]).id by {
                assert(engine.bus_ids@[j]@ == c.partylines[j].id);
            }
            assert forall|t: int| 0 <= t < v.keys.len() implies v.key_well_formed(#[trigger] v.keys[t]) by {
                let k = engine.keys@[t];
            }
            assert(compiled_at(c, rate, v));
            law_streams_are_in_order(c, v);
        }
        Ok(engine)
    }
}

impl<S: Sample> Engine<S> {
    pub fn block_size(&self) -> (r: usize)
        ensures
            r == self@.block,
    {
        self.block
    }

    pub fn endpoint_count(&self) -> (r: usize)
        ensures
            r == self@.endpoints.len(),
    {
        self.endpoints.len()
    }

    pub fn bus_count(&self) -> (r: usize)
        ensures
            r == self@.bus_ids.len(),
    {
        self.bus_ids.len()
    }

    pub fn stream_count(&self) -> (r: usize)
        ensures
            r == self@.keys.len(),
    {
        self.keys.len()
    }

    /// Flat stream index to the endpoint and key slot it feeds.
    pub fn routes(&self) -> (r: &[StreamRoute])
        requires
            self.wf(),
        ensures
            r@ == routes_of(self@.keys),
    {
        self.routes.as_slice()
    }

    pub fn meters(&self) -> (r: &Meters<S>)
        ensures
            r.inputs@ == self@.input_peaks,
            r.buses@ == self@.bus_peaks,
            r.outputs@ == self@.output_peaks,
    {
        &self.meters
    }

    /// Index of the first endpoint with the id.
    pub fn endpoint_index(&self, id: &EndpointId) -> (r: Option<usize>)
        ensures
            match r {
                Some(i) => {
                    &&& i < self@.endpoint_ids.len()
                    &&& self@.endpoint_ids[i as int] == id@
                    &&& forall|j: int| 0 <= j < i ==> #[trigger] self@.endpoint_ids[j] != id@
                },
                None => forall|j: int| 0 <= j < self@.endpoint_ids.len() ==> #[trigger] self@.endpoint_ids[j] != id@,
            },
    {
        let mut i: usize = 0;
        while i < self.endpoint_ids.len()
            invariant
                i <= self.endpoint_ids@.len(),
                forall|j: int| 0 <= j < i ==> #[trigger] self@.endpoint_ids[j] != id@,
            decreases self.endpoint_ids@.len() - i,
        {
            if self.endpoint_ids[i].same(id) {
                return Some(i);
            }
            i += 1;
        }
        None
    }

    /// Flat stream index for one endpoint's key slot.
    pub fn stream_index(&self, endpoint: usize, slot: u8) -> (r: Option<usize>)
        ensures
            match r {
                Some(s) => s < self@.keys.len() && stream_position(self@.keys, endpoint as int, slot, 0) == Some(
                    s as int,
                ),
                None => stream_position(self@.keys, endpoint as int, slot, 0) is None,
            },
    {
        let mut s: usize = 0;
        while s < self.keys.len()
            invariant
                s <= self.keys@.len(),
                stream_position(self.keys@, endpoint as int, slot, 0) == stream_position(
                    self.keys@,
                    endpoint as int,
                    slot,
                    s as int,
                ),
            decreases self.keys@.len() - s,
        {
            if self.keys[s].endpoint == endpoint && self.keys[s].slot == slot {
                return Some(s);
            }
            s += 1;
        }
        None
    }

    /// One output block for a flat stream index.
    pub fn stream_output(&self, stream: usize) -> (r: &[S])
        requires
            self.wf(),
            stream < self@.keys.len(),
        ensures
            r@ == self@.out_row(stream as int),
            r@.len() == self@.block,
    {
        row(self.out.as_slice(), stream, self.block, Ghost(self.keys@.len() as int))
    }

    /// The whole output buffer, one row of `block_size()` samples per stream.
    pub fn output(&self) -> (r: &[S])
        ensures
            r@ == self@.out,
    {
        self.out.as_slice()
    }

    /// Apply a control change.
    pub fn apply(&mut self, cmd: Command)
        requires
            old(self).wf(),
        ensures
            final(self).wf(),
            applied(old(self)@, cmd, final(self)@),
    {
        let ghost before = self@;
        match cmd {
            Command::SetTalk { endpoint, slot, on } => {
                if let Some(s) = self.stream_index(endpoint, slot) {
                    let mut k = self.keys[s];
                    if k.can_talk {
                        k.talk_on = on;
                        self.keys[s] = k;
                        assert(self.routes@ =~= routes_of(self.keys@));
                        assert(self@ == with_key(before, s as int, k));
                    }
                }
            },
            Command::SetListenLevel { endpoint, slot, db } => {
                if let Some(s) = self.stream_index(endpoint, slot) {
                    let mut k = self.keys[s];
                    k.listen_gain = level::<S>(db);
                    self.keys[s] = k;
                    assert(self.routes@ =~= routes_of(self.keys@));
                    assert(level_is(db, k.listen_gain));
                    assert(self@ == with_key(before, s as int, k));
                }
            },
            Command::SetListenMute { endpoint, slot, muted } => {
                if let Some(s) = self.stream_index(endpoint, slot) {
                    let mut k = self.keys[s];
                    k.listen_muted = muted;
                    self.keys[s] = k;
                    assert(self.routes@ =~= routes_of(self.keys@));
                    assert(self@ == with_key(before, s as int, k));
                }
            },
            Command::SetInputGain { endpoint, db } => {
                if endpoint < self.endpoints.len() {
                    let mut e = self.endpoints[endpoint];
                    e.input_gain = level::<S>(db);
                    self.endpoints[endpoint] = e;
                    assert(level_is(db, e.input_gain));
                    assert(self@ == with_endpoint(before, endpoint as int, e));
                }
            },
            Command::SetInputMute { endpoint, muted } => {
                if endpoint < self.endpoints.len() {
                    let mut e = self.endpoints[endpoint];
                    e.input_muted = muted;
                    self.endpoints[endpoint] = e;
                    assert(self@ == with_endpoint(before, endpoint as int, e));
                }
            },
            Command::ClearAllTalk => {
                self.clear_talk();
            },
        }
    }

    fn clear_talk(&mut self)
        requires
            old(self).wf(),
        ensures
            final(self).wf(),
            applied(old(self)@, Command::ClearAllTalk, final(self)@),
    {
        let ghost before = self@;
        let mut s: usize = 0;
        while s < self.keys.len()
            invariant
                s <= self.keys@.len(),
                before.well_formed(),
                self.routes@ == routes_of(before.keys),
                self@ == (EngineView { keys: self@.keys, ..before }),
                self.keys@.len() == before.keys.len(),
                forall|t: int| 0 <= t < s ==> #[trigger] self.keys@[t] == (KeyRt { talk_on: false, ..before.keys[t] }),
                forall|t: int| s <= t < before.keys.len() ==> #[trigger] self.keys@[t] == before.keys[t],
            decreases self.keys@.len() - s,
        {
            let mut k = self.keys[s];
            k.talk_on = false;
            self.keys[s] = k;
            assert(self@ == (EngineView { keys: self@.keys, ..before }));
            s += 1;
        }
        proof {
            let want = Seq::new(before.keys.len(), |t: int| KeyRt { talk_on: false, ..before.keys[t] });
            assert(self.keys@ =~= want);
            assert(self.routes@ =~= routes_of(self.keys@));
            assert forall|t: int| 0 <= t < self@.keys.len() implies self@.key_well_formed(#[trigger] self@.keys[t]) by {
                assert(before.key_well_formed(before.keys[t]));
            }
        }
    }
}

impl<S: Sample> Engine<S> {
    /// Process one block.
    ///
    /// `mic_in` is one row of `block_size()` samples per endpoint. An endpoint with nothing
    /// connected supplies silence.
    pub fn process(&mut self, mic_in: &[S])
        requires
            old(self).wf(),
            mic_in@.len() == old(self)@.endpoints.len() * old(self)@.block,
        ensures
            final(self).wf(),
            block_mixed(old(self)@, mic_in@, final(self)@),
    {
        let ghost v0 = self@;
        self.stage_inputs(mic_in);
        let ghost v1 = self@;
        self.stage_contributions();
        let ghost v2 = self@;
        self.stage_buses();
        let ghost v3 = self@;
        self.stage_outputs();
        let ghost v4 = self@;
        proof {
            assert forall|s: int| 0 <= s < v0.keys.len() implies same_settings(
                v0.keys[s],
                #[trigger] v4.keys[s],
            ) by {
                assert(v2.keys[s] == (KeyRt { ramp: v2.keys[s].ramp, ..v0.keys[s] }));
                assert(v4.keys[s] == (KeyRt { limiter: v4.keys[s].limiter, ..v3.keys[s] }));
            }
            assert(inputs_mixed(v0, mic_in@, v4)) by {
                assert forall|e: int| 0 <= e < v0.endpoints.len() implies input_staged(
                    v0.endpoints[e],
                    chunk(mic_in@, e, v0.block),
                    #[trigger] v4.mic_row(e),
                ) && peak_is(v4.mic_row(e), v4.input_peaks[e]) by {
                    assert(v1.mic_row(e) == v4.mic_row(e));
                }
            }
            assert(contributions_mixed(v0, v4)) by {
                assert forall|s: int| 0 <= s < v0.keys.len() implies contributed(
                    v0.keys[s],
                    v4.mic_row(v0.keys[s].endpoint as int),
                    v0.ramp_step,
                    v4.keys[s].ramp,
                    #[trigger] v4.share_row(s),
                ) by {
                    assert(v2.share_row(s) == v4.share_row(s));
                    assert(v1.mic_row(v0.keys[s].endpoint as int) == v4.mic_row(v0.keys[s].endpoint as int));
                    assert(v4.keys[s].ramp == v2.keys[s].ramp);
                }
            }
            assert(buses_mixed(v4)) by {
                assert forall|b: int, i: int|
                    #![trigger v4.bus_row(b)[i]]
                    0 <= b < v4.bus_ids.len() && 0 <= i < v4.block implies bus_sample(
                    v4,
                    b,
                    i,
                    v4.bus_row(b)[i],
                ) by {
                    assert(v3.bus_row(b)[i] == v4.bus_row(b)[i]);
                    lemma_same_bus_inputs(v3.keys, v4.keys, v3.shares, v3.block, b, i, v3.keys.len() as int);
                }
                assert forall|b: int| 0 <= b < v4.bus_ids.len() implies peak_is(
                    v4.bus_row(b),
                    #[trigger] v4.bus_peaks[b],
                ) by {
                    assert(v3.bus_row(b) == v4.bus_row(b));
                    let p = v3.bus_peaks[b];
                }
            }
            assert(outputs_mixed(v0, v4)) by {
                assert forall|s: int| 0 <= s < v0.keys.len() implies #[trigger] stream_mixed(v4, s, v0.keys[s]) by {
                    assert(stream_mixed(v4, s, v3.keys[s]));
                    let feed = choose|feed: Seq<S>| #[trigger]
                        fed(v4, s, v3.keys[s], feed) && crate::engine::limiter::block_limited(
                            v3.keys[s].limiter,
                            feed,
                            v4.keys[s].limiter,
                            v4.out_row(s),
                        );
                    let g = choose|g: S| #[trigger] fed_by(v4, s, v3.keys[s], g, feed);
                    assert(v2.keys[s] == (KeyRt { ramp: v2.keys[s].ramp, ..v0.keys[s] }));
                    assert(fed_by(v4, s, v0.keys[s], g, feed));
                    assert(fed(v4, s, v0.keys[s], feed));
                }
            }
        }
    }

    /// Apply input gain and hard mute, and meter the result.
    fn stage_inputs(&mut self, mic_in: &[S])
        requires
            old(self).wf(),
            mic_in@.len() == old(self)@.endpoints.len() * old(self)@.block,
        ensures
            final(self).wf(),
            final(self)@ == (EngineView {
                mic: final(self)@.mic,
                input_peaks: final(self)@.input_peaks,
                ..old(self)@
            }),
            inputs_mixed(old(self)@, mic_in@, final(self)@),
    {
        let ghost v0 = self@;
        let ghost n = self.endpoints@.len() as int;
        let block: usize = self.block;
        let mut e: usize = 0;
        while e < self.endpoints.len()
            invariant
                e <= n,
                n == v0.endpoints.len(),
                n == self.endpoints@.len(),
                block == v0.block,
                self.wf(),
                v0.well_formed(),
                mic_in@.len() == n * v0.block,
                self@ == (EngineView { mic: self@.mic, input_peaks: self@.input_peaks, ..v0 }),
                forall|i: int|
                    0 <= i < e ==> input_staged(
                        v0.endpoints[i],
                        chunk(mic_in@, i, v0.block),
                        #[trigger] self@.mic_row(i),
                    ) && peak_is(self@.mic_row(i), self@.input_peaks[i]),
            decreases n - e,
        {
            let ghost before = self@;
            let g = if self.endpoints[e].input_muted {
                S::whole(0)
            } else {
                self.endpoints[e].input_gain
            };
            let src = row(mic_in, e, block, Ghost(n));
            let dst = row_mut(&mut self.mic, e, block, Ghost(n));
            scale_row(src, g, dst);
            let ghost r = dst@;
            let peak = peak_of(dst);
            self.meters.inputs[e] = peak;
            proof {
                lemma_with_chunk(before.mic, n, block as int, e as int, r);
                assert(self@.mic_row(e as int) == r);
                assert(scaled_by(src@, g, r));
                assert(input_staged(v0.endpoints[e as int], chunk(mic_in@, e as int, v0.block), r));
                assert(self@ == (EngineView { mic: self@.mic, input_peaks: self@.input_peaks, ..v0 }));
                assert forall|i: int| 0 <= i < e + 1 implies input_staged(
                    v0.endpoints[i],
                    chunk(mic_in@, i, v0.block),
                    #[trigger] self@.mic_row(i),
                ) && peak_is(self@.mic_row(i), self@.input_peaks[i]) by {
                    if i < e {
                        assert(self@.mic_row(i) == before.mic_row(i));
                    }
                }
                assert forall|t: int| 0 <= t < self@.keys.len() implies self@.key_well_formed(
                    #[trigger] self@.keys[t],
                ) by {
                    assert(v0.key_well_formed(v0.keys[t]));
                }
            }
            e += 1;
        }
    }

    /// Advance each talk ramp and write what every key contributes this block.
    ///
    /// The bus trim is folded in here rather than applied to the summed bus, so that what
    /// mix-minus subtracts is exactly what was added.
    fn stage_contributions(&mut self)
        requires
            old(self).wf(),
        ensures
            final(self).wf(),
            final(self)@ == (EngineView {
                keys: final(self)@.keys,
                shares: final(self)@.shares,
                ..old(self)@
            }),
            final(self)@.keys.len() == old(self)@.keys.len(),
            forall|s: int|
                0 <= s < old(self)@.keys.len() ==> #[trigger] final(self)@.keys[s] == (KeyRt {
                    ramp: final(self)@.keys[s].ramp,
                    ..old(self)@.keys[s]
                }),
            contributions_mixed(old(self)@, final(self)@),
    {
        let ghost v0 = self@;
        let ghost n = self.keys@.len() as int;
        let block: usize = self.block;
        let step = self.ramp_step;
        let mut s: usize = 0;
        while s < self.keys.len()
            invariant
                s <= n,
                n == v0.keys.len(),
                n == self.keys@.len(),
                block == v0.block,
                step == v0.ramp_step,
                self.wf(),
                v0.well_formed(),
                self@ == (EngineView { keys: self@.keys, shares: self@.shares, ..v0 }),
                forall|t: int| 0 <= t < n ==> #[trigger] self@.keys[t] == (KeyRt {
                    ramp: self@.keys[t].ramp,
                    ..v0.keys[t]
                }),
                forall|t: int| s <= t < n ==> #[trigger] self@.keys[t] == v0.keys[t],
                forall|t: int|
                    0 <= t < s ==> contributed(
                        v0.keys[t],
                        v0.mic_row(v0.keys[t].endpoint as int),
                        step,
                        self@.keys[t].ramp,
                        #[trigger] self@.share_row(t),
                    ),
            decreases n - s,
        {
            let ghost before = self@;
            let mut k = self.keys[s];
            assert(k == v0.keys[s as int]);
            assert(v0.key_well_formed(k));
            let mic = row(self.mic.as_slice(), k.endpoint, block, Ghost(self.endpoints@.len() as int));
            let dst = row_mut(&mut self.shares, s, block, Ghost(n));
            let ghost old_k = k;
            if !k.can_talk {
                silence_row(dst);
            } else {
                let target = if k.talk_on {
                    S::whole(1)
                } else {
                    S::whole(0)
                };
                let steady = k.ramp.equals(target);
                if steady {
                    if k.talk_on {
                        scale_row(mic, k.share_trim, dst);
                    } else {
                        silence_row(dst);
                    }
                    assert(contributed_by(old_k, mic@, step, target, steady, k.ramp, dst@));
                } else {
                    let end = fade_row(mic, k.ramp, target, step, k.share_trim, dst);
                    k.ramp = end;
                    assert(contributed_by(old_k, mic@, step, target, steady, k.ramp, dst@));
                }
            }
            let ghost r = dst@;
            assert(contributed(old_k, mic@, step, k.ramp, r));
            self.keys[s] = k;
            proof {
                lemma_with_chunk(before.shares, n, block as int, s as int, r);
                assert(self@.share_row(s as int) == r);
                assert(self@ == (EngineView { keys: self@.keys, shares: self@.shares, ..v0 }));
                assert(self.routes@ =~= routes_of(self.keys@));
                assert forall|t: int| 0 <= t < s + 1 implies contributed(
                    v0.keys[t],
                    v0.mic_row(v0.keys[t].endpoint as int),
                    step,
                    self@.keys[t].ramp,
                    #[trigger] self@.share_row(t),
                ) by {
                    if t < s {
                        assert(self@.share_row(t) == before.share_row(t));
                        assert(self@.keys[t] == before.keys[t]);
                    }
                }
                assert forall|t: int| 0 <= t < self@.keys.len() implies self@.key_well_formed(
                    #[trigger] self@.keys[t],
                ) by {
                    assert(v0.key_well_formed(v0.keys[t]));
                }
            }
            s += 1;
        }
    }

    /// Sum every contribution onto its bus, and meter the sums.
    fn stage_buses(&mut self)
        requires
            old(self).wf(),
        ensures
            final(self).wf(),
            final(self)@ == (EngineView {
                bus: final(self)@.bus,
                bus_peaks: final(self)@.bus_peaks,
                ..old(self)@
            }),
            buses_mixed(final(self)@),
    {
        let ghost v0 = self@;
        let ghost n = self.keys@.len() as int;
        let ghost m = self.bus_ids@.len() as int;
        let block: usize = self.block;
        silence_row(self.bus.as_mut_slice());
        proof {
            assert forall|b: int, i: int|
                #![trigger self@.bus_row(b)[i]]
                0 <= b < m && 0 <= i < v0.block implies total_is(
                bus_inputs(v0.keys, v0.shares, v0.block, b, i, 0),
                self@.bus_row(b)[i],
            ) by {
                lemma_row_inside(b, m, v0.block);
                assert(self@.bus_row(b)[i] == self.bus@[b * v0.block + i]);
                lemma_total_start(self@.bus_row(b)[i]);
            }
        }
        let mut s: usize = 0;
        while s < self.keys.len()
            invariant
                s <= n,
                n == v0.keys.len(),
                n == self.keys@.len(),
                m == v0.bus_ids.len(),
                block == v0.block,
                v0.well_formed(),
                self@ == (EngineView { bus: self@.bus, ..v0 }),
                self.bus@.len() == m * block,
                self.routes@ == routes_of(self.keys@),
                forall|b: int, i: int|
                    #![trigger self@.bus_row(b)[i]]
                    0 <= b < m && 0 <= i < v0.block ==> total_is(
                        bus_inputs(v0.keys, v0.shares, v0.block, b, i, s as int),
                        self@.bus_row(b)[i],
                    ),
            decreases n - s,
        {
            let ghost before = self@;
            assert(v0.key_well_formed(v0.keys[s as int]));
            match self.keys[s].contributes_to {
                Some(bus) => {
                    let src = row(self.shares.as_slice(), s, block, Ghost(n));
                    let dst = row_mut(&mut self.bus, bus, block, Ghost(m));
                    let ghost was = dst@;
                    sum_row(src, dst);
                    let ghost now = dst@;
                    proof {
                        lemma_with_chunk(before.bus, m, block as int, bus as int, now);
                        assert(self@.bus_row(bus as int) == now);
                        assert forall|b: int, i: int|
                            #![trigger self@.bus_row(b)[i]]
                            0 <= b < m && 0 <= i < v0.block implies total_is(
                            bus_inputs(v0.keys, v0.shares, v0.block, b, i, s + 1),
                            self@.bus_row(b)[i],
                        ) by {
                            if b == bus {
                                assert(before.bus_row(b)[i] == was[i]);
                                assert(sum_is(was[i], src@[i], now[i]));
                                lemma_total_step(
                                    bus_inputs(v0.keys, v0.shares, v0.block, b, i, s as int),
                                    was[i],
                                    src@[i],
                                    now[i],
                                );
                            } else {
                                assert(self@.bus_row(b) == before.bus_row(b));
                                assert(before.bus_row(b)[i] == self@.bus_row(b)[i]);
                            }
                        }
                    }
                },
                None => {
                    proof {
                        assert forall|b: int, i: int|
                            #![trigger self@.bus_row(b)[i]]
                            0 <= b < m && 0 <= i < v0.block implies total_is(
                            bus_inputs(v0.keys, v0.shares, v0.block, b, i, s + 1),
                            self@.bus_row(b)[i],
                        ) by {
                            assert(before.bus_row(b)[i] == self@.bus_row(b)[i]);
                        }
                    }
                },
            }
            assert(self@ == (EngineView { bus: self@.bus, ..v0 }));
            s += 1;
        }
        let ghost v1 = self@;
        let mut b: usize = 0;
        while b < self.bus_ids.len()
            invariant
                b <= m,
                m == v1.bus_ids.len(),
                m == self.bus_ids@.len(),
                block == v1.block,
                self.bus@.len() == m * block,
                self.meters.buses@.len() == m,
                self@ == (EngineView { bus_peaks: self@.bus_peaks, ..v1 }),
                self.routes@ == routes_of(self.keys@),
                forall|i: int| 0 <= i < b ==> peak_is(v1.bus_row(i), #[trigger] self@.bus_peaks[i]),
            decreases m - b,
        {
            let peak = peak_of(row(self.bus.as_slice(), b, block, Ghost(m)));
            self.meters.buses[b] = peak;
            assert(self@ == (EngineView { bus_peaks: self@.bus_peaks, ..v1 }));
            b += 1;
        }
        proof {
            assert forall|x: int, i: int|
                #![trigger self@.bus_row(x)[i]]
                0 <= x < m && 0 <= i < v0.block implies bus_sample(self@, x, i, self@.bus_row(x)[i]) by {
                assert(v1.bus_row(x)[i] == self@.bus_row(x)[i]);
            }
            assert forall|x: int| 0 <= x < m implies peak_is(self@.bus_row(x), #[trigger] self@.bus_peaks[x]) by {
                assert(v1.bus_row(x) == self@.bus_row(x));
            }
            assert forall|t: int| 0 <= t < self@.keys.len() implies self@.key_well_formed(
                #[trigger] self@.keys[t],
            ) by {
                assert(v0.key_well_formed(v0.keys[t]));
            }
        }
    }

    /// Produce every key's feed, then limit it.
    ///
    /// The limiter sits on each output rather than on the bus: limiting the bus before the
    /// subtraction would make the subtraction wrong.
    fn stage_outputs(&mut self)
        requires
            old(self).wf(),
        ensures
            final(self).wf(),
            final(self)@ == (EngineView {
                keys: final(self)@.keys,
                out: final(self)@.out,
                output_peaks: final(self)@.output_peaks,
                ..old(self)@
            }),
            final(self)@.keys.len() == old(self)@.keys.len(),
            forall|s: int|
                0 <= s < old(self)@.keys.len() ==> #[trigger] final(self)@.keys[s] == (KeyRt {
                    limiter: final(self)@.keys[s].limiter,
                    ..old(self)@.keys[s]
                }),
            outputs_mixed(old(self)@, final(self)@),
    {
        let ghost v0 = self@;
        let ghost n = self.keys@.len() as int;
        let ghost m = self.bus_ids@.len() as int;
        let block: usize = self.block;
        let mut s: usize = 0;
        while s < self.keys.len()
            invariant
                s <= n,
                n == v0.keys.len(),
                n == self.keys@.len(),
                m == v0.bus_ids.len(),
                block == v0.block,
                self.wf(),
                v0.well_formed(),
                self@ == (EngineView {
                    keys: self@.keys,
                    out: self@.out,
                    output_peaks: self@.output_peaks,
                    ..v0
                }),
                forall|t: int| 0 <= t < n ==> #[trigger] self@.keys[t] == (KeyRt {
                    limiter: self@.keys[t].limiter,
                    ..v0.keys[t]
                }),
                forall|t: int| s <= t < n ==> #[trigger] self@.keys[t] == v0.keys[t],
                forall|t: int| 0 <= t < s ==> #[trigger] stream_mixed(self@, t, v0.keys[t]),
            decreases n - s,
        {
            let ghost before = self@;
            let mut k = self.keys[s];
            let ghost old_k = k;
            assert(k == v0.keys[s as int]);
            assert(v0.key_well_formed(k));
            let gain = if k.listen_muted {
                S::whole(0)
            } else {
                k.listen_gain
            };
            let dst = row_mut(&mut self.out, s, block, Ghost(n));
            match k.source {
                Source::Bus(b) => {
                    let bus = row(self.bus.as_slice(), b, block, Ghost(m));
                    let own = row(self.shares.as_slice(), s, block, Ghost(n));
                    mix_minus_row(bus, own, gain, dst);
                },
                Source::Direct(Some(far)) => {
                    let src = row(self.shares.as_slice(), far, block, Ghost(n));
                    scale_row(src, gain, dst);
                },
                Source::Direct(None) => {
                    silence_row(dst);
                },
            }
            let ghost feed = dst@;
            assert(fed_by(v0, s as int, old_k, gain, feed));
            let mut limiter = k.limiter;
            let peak = limiter.process(dst);
            let ghost r = dst@;
            k.limiter = limiter;
            self.keys[s] = k;
            self.meters.outputs[s] = peak;
            proof {
                lemma_with_chunk(before.out, n, block as int, s as int, r);
                let v = self@;
                assert(v.out_row(s as int) == r);
                assert(v == (EngineView { keys: v.keys, out: v.out, output_peaks: v.output_peaks, ..v0 }));
                assert(self.routes@ =~= routes_of(self.keys@));
                assert(fed_by(v, s as int, old_k, gain, feed));
                assert(fed(v, s as int, old_k, feed));
                assert(output_staged(v, s as int, old_k, limiter));
                assert forall|t: int| 0 <= t < s + 1 implies #[trigger] stream_mixed(v, t, v0.keys[t]) by {
                    if t < s {
                        assert(stream_mixed(before, t, v0.keys[t]));
                        assert(v.out_row(t) == before.out_row(t));
                        assert(v.keys[t] == before.keys[t]);
                        lemma_output_kept(before, v, t, v0.keys[t], v.keys[t].limiter);
                    }
                }
                assert forall|t: int| 0 <= t < v.keys.len() implies v.key_well_formed(#[trigger] v.keys[t]) by {
                    assert(v0.key_well_formed(v0.keys[t]));
                }
            }
            s += 1;
        }
    }
}

/// What a stream put out does not depend on the rows of other streams.
proof fn lemma_output_kept<S: Sample>(a: EngineView<S>, b: EngineView<S>, s: int, k: KeyRt<S>, after: Limiter<S>)
    requires
        output_staged(a, s, k, after),
        a.block == b.block,
        a.bus == b.bus,
        a.shares == b.shares,
        a.out_row(s) == b.out_row(s),
    ensures
        output_staged(b, s, k, after),
{
    let feed = choose|feed: Seq<S>| #[trigger]
        fed(a, s, k, feed) && crate::engine::limiter::block_limited(k.limiter, feed, after, a.out_row(s));
    let g = choose|g: S| #[trigger] fed_by(a, s, k, g, feed);
    assert(fed_by(b, s, k, g, feed));
    assert(fed(b, s, k, feed));
}

/// What is summed onto a bus depends only on which keys talk onto it.
proof fn lemma_same_bus_inputs<S>(
    a: Seq<KeyRt<S>>,
    b: Seq<KeyRt<S>>,
    shares: Seq<S>,
    block: int,
    bus: int,
    i: int,
    n: int,
)
    requires
        0 <= n <= a.len(),
        a.len() == b.len(),
        forall|s: int| 0 <= s < a.len() ==> (#[trigger] b[s]).contributes_to == a[s].contributes_to,
    ensures
        bus_inputs(a, shares, block, bus, i, n) == bus_inputs(b, shares, block, bus, i, n),
    decreases n,
{
    if n > 0 {
        lemma_same_bus_inputs(a, b, shares, block, bus, i, n - 1);
        assert(b[n - 1].contributes_to == a[n - 1].contributes_to);
    }
}

proof fn lemma_ranked_count(c: ConfigView)
    ensures
        ranked_findings(c).filter(is_error()).len() == errors(c).len(),
{
    broadcast use Seq::lemma_filter_pred;

    let e = findings(c).filter(is_error());
    let w = findings(c).filter(is_warning());
    Seq::filter_distributes_over_add(e, w, is_error());
    lemma_filter_all(e);
    lemma_filter_none(w);
}

proof fn lemma_filter_all(s: Seq<crate::config::findings::ProblemView>)
    requires
        forall|i: int| 0 <= i < s.len() ==> is_error()(#[trigger] s[i]),
    ensures
        s.filter(is_error()) == s,
    decreases s.len(),
{
    reveal(Seq::filter);
    if s.len() > 0 {
        let p = s.drop_last();
        assert forall|i: int| 0 <= i < p.len() implies is_error()(#[trigger] p[i]) by {
            assert(p[i] == s[i]);
        }
        lemma_filter_all(p);
        assert(is_error()(s[s.len() - 1]));
        assert(s =~= p.push(s.last()));
    } else {
        assert(s.filter(is_error()) =~= s);
    }
}

proof fn lemma_filter_none(s: Seq<crate::config::findings::ProblemView>)
    requires
        forall|i: int| 0 <= i < s.len() ==> is_warning()(#[trigger] s[i]),
    ensures
        s.filter(is_error()).len() == 0,
    decreases s.len(),
{
    reveal(Seq::filter);
    if s.len() > 0 {
        let p = s.drop_last();
        assert forall|i: int| 0 <= i < p.len() implies is_warning()(#[trigger] p[i]) by {
            assert(p[i] == s[i]);
        }
        lemma_filter_none(p);
        assert(is_warning()(s[s.len() - 1]));
    }
}

/// How many findings are errors.
pub fn count_errors(problems: &Vec<Problem>) -> (r: usize)
    ensures
        r == problems_view(problems@).filter(is_error()).len(),
{
    let ghost all = problems_view(problems@);
    let mut n: usize = 0;
    let mut i: usize = 0;
    proof {
        reveal(Seq::filter);
        assert(all.take(0) =~= Seq::<crate::config::findings::ProblemView>::empty());
    }
    while i < problems.len()
        invariant
            i <= problems@.len(),
            all == problems_view(problems@),
            n == all.take(i as int).filter(is_error()).len(),
            n <= i,
        decreases problems@.len() - i,
    {
        proof {
            assert(all.take(i + 1) =~= all.take(i as int).push(all[i as int]));
            all.take(i as int).lemma_filter_push(all[i as int], is_error());
        }
        if problems[i].severity == Severity::Error {
            n += 1;
        }
        i += 1;
    }
    assert(all.take(i as int) =~= all);
    n
}

} // verus!
