//! What the engine holds, and what one block of mixing means.

use vstd::prelude::*;

use crate::config::model::{ConfigView, EndpointView, Single, TalkMode, TargetView};
use crate::engine::limiter::{block_limited, limiter_fresh, Limiter, DEFAULT_RELEASE_MS, DEFAULT_THRESHOLD_MILLIONTHS};
use crate::engine::order::stream_of;
use crate::engine::rows::chunk;
use crate::sample::{
    bits_are, difference_is, equals_is, exceeds_is, gain_is, greater_is, lesser_is, peak_is, product_is,
    quotient_is, ratio_is, sum_is, total_is, whole_is, Sample,
};

verus! {

/// A control change applied between blocks.
#[derive(Clone, Copy, Debug, PartialEq, Eq, Structural)]
pub enum Command {
    /// Press or release a talk key.
    SetTalk { endpoint: usize, slot: u8, on: bool },
    /// Change a key's listen level in dB.
    SetListenLevel { endpoint: usize, slot: u8, db: Single },
    /// Mute or unmute a key's listen path.
    SetListenMute { endpoint: usize, slot: u8, muted: bool },
    /// Change an endpoint's microphone gain in dB.
    SetInputGain { endpoint: usize, db: Single },
    /// Hard-mute an endpoint's microphone, overriding every talk key it holds.
    SetInputMute { endpoint: usize, muted: bool },
    /// Release every latched talk key in the system.
    ClearAllTalk,
}

/// Where a key's audio comes from, by index.
#[derive(Clone, Copy, Debug, PartialEq, Eq, Structural)]
pub enum Source {
    /// The sum of this bus, minus this key's own contribution.
    Bus(usize),
    /// The single key on the far endpoint that points back at this one. `None` when the
    /// far end has no reciprocal key: silence.
    Direct(Option<usize>),
}

/// Which endpoint and key slot a flat stream index belongs to.
#[derive(Clone, Copy, Debug, PartialEq, Eq, Structural)]
pub struct StreamRoute {
    pub endpoint: usize,
    pub slot: u8,
}

/// One key at run time. Its position is its stream.
#[derive(Clone, Copy)]
pub struct KeyRt<S> {
    pub endpoint: usize,
    pub slot: u8,
    pub source: Source,
    /// Which bus this key's contribution is summed onto, if any. A listen-only key has
    /// nothing to sum; a direct key has no bus, but produces a contribution all the same.
    pub contributes_to: Option<usize>,
    /// Gain folded into the contribution as it is written.
    pub share_trim: S,
    pub listen_gain: S,
    pub listen_muted: bool,
    pub can_talk: bool,
    pub talk_on: bool,
    /// Current position of the talk fade.
    pub ramp: S,
    pub limiter: Limiter<S>,
}

/// One endpoint at run time.
#[derive(Clone, Copy)]
pub struct EndpointRt<S> {
    pub input_gain: S,
    pub input_muted: bool,
}

/// The engine as a mathematical value.
pub struct EngineView<S> {
    pub block: int,
    /// Per-sample increment of the talk ramp.
    pub ramp_step: S,
    pub endpoint_ids: Seq<Seq<char>>,
    pub endpoints: Seq<EndpointRt<S>>,
    /// Every key, endpoint by endpoint and slot by slot; the position is the stream.
    pub keys: Seq<KeyRt<S>>,
    pub bus_ids: Seq<Seq<char>>,
    /// Microphones after gain and hard mute, one row per endpoint.
    pub mic: Seq<S>,
    /// What each key contributed this block, one row per stream.
    pub shares: Seq<S>,
    /// One row per bus.
    pub bus: Seq<S>,
    /// One row per stream.
    pub out: Seq<S>,
    pub input_peaks: Seq<S>,
    pub bus_peaks: Seq<S>,
    pub output_peaks: Seq<S>,
}

impl<S: Sample> EngineView<S> {
    /// Every buffer has its rows, and every index leads somewhere.
    pub open spec fn well_formed(self) -> bool {
        &&& self.block > 0
        &&& self.endpoint_ids.len() == self.endpoints.len()
        &&& self.mic.len() == self.endpoints.len() * self.block
        &&& self.shares.len() == self.keys.len() * self.block
        &&& self.out.len() == self.keys.len() * self.block
        &&& self.bus.len() == self.bus_ids.len() * self.block
        &&& self.input_peaks.len() == self.endpoints.len()
        &&& self.bus_peaks.len() == self.bus_ids.len()
        &&& self.output_peaks.len() == self.keys.len()
        &&& forall|s: int| 0 <= s < self.keys.len() ==> self.key_well_formed(#[trigger] self.keys[s])
    }

    pub open spec fn key_well_formed(self, k: KeyRt<S>) -> bool {
        &&& k.endpoint < self.endpoints.len()
        &&& match k.source {
            Source::Bus(b) => b < self.bus_ids.len(),
            Source::Direct(Some(t)) => t < self.keys.len(),
            Source::Direct(None) => true,
        }
        &&& match k.contributes_to {
            Some(b) => b < self.bus_ids.len(),
            None => true,
        }
    }

    pub open spec fn mic_row(self, e: int) -> Seq<S> {
        chunk(self.mic, e, self.block)
    }

    pub open spec fn share_row(self, s: int) -> Seq<S> {
        chunk(self.shares, s, self.block)
    }

    pub open spec fn bus_row(self, b: int) -> Seq<S> {
        chunk(self.bus, b, self.block)
    }

    pub open spec fn out_row(self, s: int) -> Seq<S> {
        chunk(self.out, s, self.block)
    }
}

/// Whether a key's stream belongs before another's: by endpoint, and then by slot.
pub open spec fn route_before<S>(a: KeyRt<S>, b: KeyRt<S>) -> bool {
    a.endpoint < b.endpoint || a.endpoint == b.endpoint && a.slot < b.slot
}

/// Whether streams are numbered endpoint by endpoint, and by slot within each.
pub open spec fn streams_ordered<S>(keys: Seq<KeyRt<S>>) -> bool {
    forall|s: int, t: int| 0 <= s < t < keys.len() ==> route_before(#[trigger] keys[s], #[trigger] keys[t])
}

/// The first stream, from `from` on, of an endpoint's key slot.
pub open spec fn stream_position<S>(keys: Seq<KeyRt<S>>, endpoint: int, slot: u8, from: int) -> Option<int>
    decreases keys.len() - from,
{
    if from < 0 || from >= keys.len() {
        None
    } else if keys[from].endpoint == endpoint && keys[from].slot == slot {
        Some(from)
    } else {
        stream_position(keys, endpoint, slot, from + 1)
    }
}

pub proof fn lemma_stream_position<S>(keys: Seq<KeyRt<S>>, endpoint: int, slot: u8, from: int)
    requires
        0 <= from,
    ensures
        match stream_position(keys, endpoint, slot, from) {
            Some(s) => {
                &&& from <= s < keys.len()
                &&& keys[s].endpoint == endpoint
                &&& keys[s].slot == slot
                &&& forall|t: int| from <= t < s ==> !(keys[t].endpoint == endpoint && keys[t].slot == slot)
            },
            None => forall|t: int|
                from <= t < keys.len() ==> !(keys[t].endpoint == endpoint && keys[t].slot == slot),
        },
    decreases keys.len() - from,
{
    if from < keys.len() && !(keys[from].endpoint == endpoint && keys[from].slot == slot) {
        lemma_stream_position(keys, endpoint, slot, from + 1);
    }
}

// Compiling a configuration.

/// How many keys the first `n` endpoints have: the stream of the first key after them.
pub open spec fn offset(endpoints: Seq<EndpointView>, n: int) -> int
    decreases n,
{
    if n <= 0 {
        0
    } else {
        offset(endpoints, n - 1) + endpoints[n - 1].keys.len()
    }
}

/// The first key, from `from` on, with a direct path to the endpoint.
pub open spec fn call_position(e: EndpointView, other: Seq<char>, from: int) -> Option<int>
    decreases e.keys.len() - from,
{
    if from < 0 || from >= e.keys.len() {
        None
    } else if e.keys[from].target == TargetView::Direct(other) {
        Some(from)
    } else {
        call_position(e, other, from + 1)
    }
}

pub proof fn lemma_call_position(e: EndpointView, other: Seq<char>, from: int)
    requires
        0 <= from,
    ensures
        match call_position(e, other, from) {
            Some(k) => {
                &&& from <= k < e.keys.len()
                &&& e.keys[k].target == TargetView::Direct(other)
            },
            None => forall|k: int| from <= k < e.keys.len() ==> e.keys[k].target != TargetView::Direct(other),
        },
    decreases e.keys.len() - from,
{
    if from < e.keys.len() && e.keys[from].target != TargetView::Direct(other) {
        lemma_call_position(e, other, from + 1);
    }
}

/// Where key `k` of endpoint `i` listens.
pub open spec fn source_of(c: ConfigView, i: int, k: int) -> Source {
    match c.endpoints[i].keys[k].target {
        TargetView::Partyline(p) => Source::Bus(c.partyline_at(p)->0 as usize),
        TargetView::Direct(d) => {
            let far = c.endpoint_at(d)->0;
            match call_position(c.endpoints[far], c.endpoints[i].id, 0) {
                Some(back) => Source::Direct(Some(stream_of(c.endpoints, far, back) as usize)),
                None => Source::Direct(None),
            }
        },
    }
}

/// Which bus key `k` of endpoint `i` talks onto.
pub open spec fn bus_of(c: ConfigView, i: int, k: int) -> Option<usize> {
    match c.endpoints[i].keys[k].target {
        TargetView::Partyline(p) => if c.endpoints[i].keys[k].talk_mode != TalkMode::ListenOnly {
            Some(c.partyline_at(p)->0 as usize)
        } else {
            None
        },
        TargetView::Direct(_) => None,
    }
}

/// `gain` is the linear gain of an authored level.
pub open spec fn level_is<S: Sample>(level: Single, gain: S) -> bool {
    exists|db: S| #[trigger] bits_are(level.bits, db) && gain_is(db, gain)
}

/// A limiter at rest with the default settings at this sample rate.
pub open spec fn limiter_default<S: Sample>(l: Limiter<S>, rate: S) -> bool {
    &&& ratio_is(DEFAULT_THRESHOLD_MILLIONTHS as int, 1_000_000, l.threshold)
    &&& exists|release_s: S| #[trigger]
        limiter_fresh(l, rate, l.threshold, release_s) && ratio_is(DEFAULT_RELEASE_MS as int, 1000, release_s)
}

/// Key `k` of endpoint `i`, freshly compiled.
pub open spec fn key_compiled<S: Sample>(c: ConfigView, i: int, k: int, rate: S, rt: KeyRt<S>) -> bool {
    let key = c.endpoints[i].keys[k];
    &&& rt.endpoint == i
    &&& rt.slot == key.slot
    &&& rt.source == source_of(c, i, k)
    &&& rt.contributes_to == bus_of(c, i, k)
    &&& match key.target {
        TargetView::Partyline(p) => level_is(c.partylines[c.partyline_at(p)->0].bus_trim_db, rt.share_trim),
        TargetView::Direct(_) => whole_is(1, rt.share_trim),
    }
    &&& level_is(key.listen_level_db, rt.listen_gain)
    &&& rt.listen_muted == key.listen_muted
    &&& rt.can_talk == (key.talk_mode != TalkMode::ListenOnly)
    &&& !rt.talk_on
    &&& whole_is(0, rt.ramp)
    &&& limiter_default(rt.limiter, rate)
}

/// The steps to the talk ramp's increment.
pub struct RampSteps<S> {
    pub authored: S,
    pub least: S,
    pub ms: S,
    pub thousandth: S,
    pub seconds: S,
    pub rate: S,
    pub samples: S,
    pub one: S,
}

pub open spec fn ramp_by<S: Sample>(ms: Single, rate: S, w: RampSteps<S>, r: S) -> bool {
    &&& bits_are(ms.bits, w.authored)
    &&& ratio_is(1, 10, w.least)
    &&& greater_is(w.authored, w.least, w.ms)
    &&& ratio_is(1, 1000, w.thousandth)
    &&& product_is(w.ms, w.thousandth, w.seconds)
    &&& w.rate == rate
    &&& product_is(w.seconds, w.rate, w.samples)
    &&& whole_is(1, w.one)
    &&& quotient_is(w.one, w.samples, r)
}

/// `r` is one over the number of samples in the ramp, the ramp being at least a tenth of
/// a millisecond.
pub open spec fn ramp_step_is<S: Sample>(ms: Single, rate: S, r: S) -> bool {
    exists|w: RampSteps<S>| #[trigger] ramp_by(ms, rate, w, r)
}

/// Silence throughout.
pub open spec fn silent<S: Sample>(xs: Seq<S>) -> bool {
    forall|i: int| 0 <= i < xs.len() ==> whole_is(0, #[trigger] xs[i])
}

pub open spec fn compiled_at<S: Sample>(c: ConfigView, rate: S, v: EngineView<S>) -> bool {
    &&& whole_is(c.system.sample_rate as int, rate)
    &&& v.block == c.system.ptime_samples
    &&& ramp_step_is(c.system.talk_ramp_ms, rate, v.ramp_step)
    &&& v.endpoint_ids.len() == c.endpoints.len()
    &&& v.endpoints.len() == c.endpoints.len()
    &&& forall|i: int|
        #![trigger c.endpoints[i]]
        0 <= i < c.endpoints.len() ==> v.endpoint_ids[i] == c.endpoints[i].id && level_is(
            c.endpoints[i].input_gain_db,
            v.endpoints[i].input_gain,
        ) && v.endpoints[i].input_muted == c.endpoints[i].input_muted
    &&& v.bus_ids.len() == c.partylines.len()
    &&& forall|b: int| 0 <= b < c.partylines.len() ==> v.bus_ids[b] == (#[trigger] c.partylines[b]).id
    &&& v.keys.len() == offset(c.endpoints, c.endpoints.len() as int)
    &&& forall|i: int, k: int|
        #![trigger c.endpoints[i].keys[k]]
        0 <= i < c.endpoints.len() && 0 <= k < c.endpoints[i].keys.len() ==> key_compiled(
            c,
            i,
            k,
            rate,
            v.keys[stream_of(c.endpoints, i, k)],
        )
    &&& silent(v.mic)
    &&& silent(v.shares)
    &&& silent(v.bus)
    &&& silent(v.out)
    &&& silent(v.input_peaks)
    &&& silent(v.bus_peaks)
    &&& silent(v.output_peaks)
}

/// The engine freshly compiled from a configuration: one stream for every key, in the
/// order of endpoints and then of slots; nobody talking; silence everywhere.
pub open spec fn compiled<S: Sample>(c: ConfigView, v: EngineView<S>) -> bool {
    exists|rate: S| #[trigger] compiled_at(c, rate, v)
}

/// Whether the sample buffers of a configuration can be addressed.
pub open spec fn buffers_fit(c: ConfigView) -> bool {
    let block = c.system.ptime_samples as int;
    &&& c.endpoints.len() * block <= usize::MAX
    &&& offset(c.endpoints, c.endpoints.len() as int) * block <= usize::MAX
    &&& c.partylines.len() * block <= usize::MAX
}

// One block.

/// The gain on a microphone: none when hard-muted.
pub open spec fn input_gain_now<S: Sample>(e: EndpointRt<S>, g: S) -> bool {
    if e.input_muted {
        whole_is(0, g)
    } else {
        g == e.input_gain
    }
}

pub open spec fn scaled_by<S: Sample>(src: Seq<S>, g: S, dst: Seq<S>) -> bool {
    &&& dst.len() == src.len()
    &&& forall|i: int|
        #![trigger src[i]]
        #![trigger dst[i]]
        0 <= i < src.len() ==> product_is(src[i], g, dst[i])
}

/// A microphone block after input gain and hard mute.
pub open spec fn input_staged<S: Sample>(e: EndpointRt<S>, src: Seq<S>, dst: Seq<S>) -> bool {
    exists|g: S| #[trigger] scaled_by(src, g, dst) && input_gain_now(e, g)
}

/// The steps of one ramp position to the next.
pub struct FadeSteps<S> {
    pub rising: bool,
    pub moved: S,
}

pub open spec fn fade_by<S: Sample>(r: S, target: S, step: S, w: FadeSteps<S>, next: S) -> bool {
    &&& exceeds_is(target, r, w.rising)
    &&& if w.rising {
        sum_is(r, step, w.moved) && lesser_is(w.moved, target, next)
    } else {
        difference_is(r, step, w.moved) && greater_is(w.moved, target, next)
    }
}

/// One step of the talk fade towards its target, never past it.
pub open spec fn fade_is<S: Sample>(r: S, target: S, step: S, next: S) -> bool {
    exists|w: FadeSteps<S>| #[trigger] fade_by(r, target, step, w, next)
}

/// A sample faded, then trimmed.
pub open spec fn faded_is<S: Sample>(m: S, ramp: S, trim: S, r: S) -> bool {
    exists|x: S| #[trigger] product_is(m, ramp, x) && product_is(x, trim, r)
}

/// One sample of a fade: the ramp moves, then the sample is faded and trimmed.
pub open spec fn fade_step<S: Sample>(m: S, r: S, target: S, step: S, trim: S, next: S, out: S) -> bool {
    fade_is(r, target, step, next) && faded_is(m, next, trim, out)
}

pub open spec fn faded_run<S: Sample>(mic: Seq<S>, ramps: Seq<S>, target: S, step: S, trim: S, row: Seq<S>) -> bool {
    &&& row.len() == mic.len()
    &&& ramps.len() == mic.len() + 1
    &&& forall|i: int|
        #![trigger mic[i]]
        #![trigger row[i]]
        0 <= i < mic.len() ==> fade_step(mic[i], ramps[i], target, step, trim, ramps[i + 1], row[i])
}

pub open spec fn contributed_by<S: Sample>(
    k: KeyRt<S>,
    mic: Seq<S>,
    step: S,
    target: S,
    steady: bool,
    ramp: S,
    row: Seq<S>,
) -> bool {
    &&& row.len() == mic.len()
    &&& whole_is(if k.talk_on { 1 } else { 0 }, target)
    &&& equals_is(k.ramp, target, steady)
    &&& if steady {
        &&& ramp == k.ramp
        &&& if k.talk_on {
            scaled_by(mic, k.share_trim, row)
        } else {
            silent(row)
        }
    } else {
        exists|ramps: Seq<S>| #[trigger]
            faded_run(mic, ramps, target, step, k.share_trim, row) && ramps[0] == k.ramp && ramps.last() == ramp
    }
}

/// What a key contributes in a block, and where its ramp ends up: nothing if it cannot
/// talk; otherwise the microphone, faded sample by sample while the ramp moves, and
/// trimmed.
pub open spec fn contributed<S: Sample>(k: KeyRt<S>, mic: Seq<S>, step: S, ramp: S, row: Seq<S>) -> bool {
    if !k.can_talk {
        row.len() == mic.len() && silent(row) && ramp == k.ramp
    } else {
        exists|target: S, steady: bool| #[trigger] contributed_by(k, mic, step, target, steady, ramp, row)
    }
}

/// What is summed onto sample `i` of bus `b` by the first `n` streams, in order.
pub open spec fn bus_inputs<S>(keys: Seq<KeyRt<S>>, shares: Seq<S>, block: int, b: int, i: int, n: int) -> Seq<S>
    decreases n,
{
    if n <= 0 {
        Seq::empty()
    } else {
        let rest = bus_inputs(keys, shares, block, b, i, n - 1);
        if talks_onto(keys[n - 1], b) {
            rest.push(chunk(shares, n - 1, block)[i])
        } else {
            rest
        }
    }
}

/// Whether a key's contribution goes onto the bus.
pub open spec fn talks_onto<S>(k: KeyRt<S>, b: int) -> bool {
    match k.contributes_to {
        Some(bus) => bus == b,
        None => false,
    }
}

/// The gain on a key's listen path: none when muted.
pub open spec fn listen_gain_now<S: Sample>(k: KeyRt<S>, g: S) -> bool {
    if k.listen_muted {
        whole_is(0, g)
    } else {
        g == k.listen_gain
    }
}

/// A bus sample less a key's own contribution, scaled.
pub open spec fn minus_own<S: Sample>(bus: S, own: S, g: S, r: S) -> bool {
    exists|d: S| #[trigger] difference_is(bus, own, d) && product_is(d, g, r)
}

pub open spec fn mix_minus_by<S: Sample>(bus: Seq<S>, own: Seq<S>, g: S, feed: Seq<S>) -> bool {
    &&& feed.len() == own.len()
    &&& bus.len() == own.len()
    &&& forall|i: int|
        #![trigger own[i]]
        #![trigger feed[i]]
        0 <= i < own.len() ==> minus_own(bus[i], own[i], g, feed[i])
}

pub open spec fn fed_by<S: Sample>(v: EngineView<S>, s: int, k: KeyRt<S>, g: S, feed: Seq<S>) -> bool {
    &&& feed.len() == v.block
    &&& listen_gain_now(k, g)
    &&& match k.source {
        Source::Bus(b) => mix_minus_by(v.bus_row(b as int), v.share_row(s), g, feed),
        Source::Direct(Some(t)) => scaled_by(v.share_row(t as int), g, feed),
        Source::Direct(None) => silent(feed),
    }
}

/// The feed of stream `s` before its limiter: its bus minus its own contribution, or the
/// far end's contribution, at the listen gain; silence without a far end.
pub open spec fn fed<S: Sample>(v: EngineView<S>, s: int, k: KeyRt<S>, feed: Seq<S>) -> bool {
    exists|g: S| #[trigger] fed_by(v, s, k, g, feed)
}

/// The output of stream `s`: its feed through its limiter.
pub open spec fn output_staged<S: Sample>(v: EngineView<S>, s: int, k: KeyRt<S>, after: Limiter<S>) -> bool {
    exists|feed: Seq<S>| #[trigger] fed(v, s, k, feed) && block_limited(k.limiter, feed, after, v.out_row(s))
}

/// The parts of a key that a block leaves alone.
pub open spec fn same_settings<S>(a: KeyRt<S>, b: KeyRt<S>) -> bool {
    b == (KeyRt { ramp: b.ramp, limiter: b.limiter, ..a })
}

/// One block mixed: from the microphones to every feed, with every meter.
pub open spec fn block_mixed<S: Sample>(before: EngineView<S>, mic_in: Seq<S>, after: EngineView<S>) -> bool {
    &&& after.block == before.block
    &&& after.ramp_step == before.ramp_step
    &&& after.endpoint_ids == before.endpoint_ids
    &&& after.endpoints == before.endpoints
    &&& after.bus_ids == before.bus_ids
    &&& after.keys.len() == before.keys.len()
    &&& forall|s: int| 0 <= s < before.keys.len() ==> same_settings(before.keys[s], #[trigger] after.keys[s])
    &&& inputs_mixed(before, mic_in, after)
    &&& contributions_mixed(before, after)
    &&& buses_mixed(after)
    &&& outputs_mixed(before, after)
}

pub open spec fn inputs_mixed<S: Sample>(before: EngineView<S>, mic_in: Seq<S>, after: EngineView<S>) -> bool {
    forall|e: int|
        0 <= e < before.endpoints.len() ==> input_staged(
            before.endpoints[e],
            chunk(mic_in, e, before.block),
            #[trigger] after.mic_row(e),
        ) && peak_is(after.mic_row(e), after.input_peaks[e])
}

pub open spec fn contributions_mixed<S: Sample>(before: EngineView<S>, after: EngineView<S>) -> bool {
    forall|s: int|
        0 <= s < before.keys.len() ==> contributed(
            before.keys[s],
            after.mic_row(before.keys[s].endpoint as int),
            before.ramp_step,
            after.keys[s].ramp,
            #[trigger] after.share_row(s),
        )
}

/// Sample `i` of bus `b` is the sum of every contribution to it.
pub open spec fn bus_sample<S: Sample>(v: EngineView<S>, b: int, i: int, r: S) -> bool {
    total_is(bus_inputs(v.keys, v.shares, v.block, b, i, v.keys.len() as int), r)
}

pub open spec fn buses_mixed<S: Sample>(v: EngineView<S>) -> bool {
    &&& forall|b: int, i: int|
        #![trigger v.bus_row(b)[i]]
        0 <= b < v.bus_ids.len() && 0 <= i < v.block ==> bus_sample(v, b, i, v.bus_row(b)[i])
    &&& forall|b: int| 0 <= b < v.bus_ids.len() ==> peak_is(v.bus_row(b), #[trigger] v.bus_peaks[b])
}

/// The output of stream `s`, from the key as it was, with its meter.
pub open spec fn stream_mixed<S: Sample>(v: EngineView<S>, s: int, k: KeyRt<S>) -> bool {
    output_staged(v, s, k, v.keys[s].limiter) && peak_is(v.out_row(s), v.output_peaks[s])
}

pub open spec fn outputs_mixed<S: Sample>(before: EngineView<S>, after: EngineView<S>) -> bool {
    forall|s: int| 0 <= s < before.keys.len() ==> #[trigger] stream_mixed(after, s, before.keys[s])
}

// Control.

/// The engine with one key changed.
pub open spec fn with_key<S>(v: EngineView<S>, s: int, k: KeyRt<S>) -> EngineView<S> {
    EngineView { keys: v.keys.update(s, k), ..v }
}

/// The engine with one endpoint changed.
pub open spec fn with_endpoint<S>(v: EngineView<S>, e: int, endpoint: EndpointRt<S>) -> EngineView<S> {
    EngineView { endpoints: v.endpoints.update(e, endpoint), ..v }
}

/// What a command does. One that names no key or endpoint does nothing, and neither does
/// talk on a key that cannot talk.
pub open spec fn applied<S: Sample>(before: EngineView<S>, command: Command, after: EngineView<S>) -> bool {
    match command {
        Command::SetTalk { endpoint, slot, on } => match stream_position(before.keys, endpoint as int, slot, 0) {
            Some(s) => if before.keys[s].can_talk {
                after == with_key(before, s, KeyRt { talk_on: on, ..before.keys[s] })
            } else {
                after == before
            },
            None => after == before,
        },
        Command::SetListenLevel { endpoint, slot, db } => match stream_position(
            before.keys,
            endpoint as int,
            slot,
            0,
        ) {
            Some(s) => exists|gain: S| #[trigger]
                level_is(db, gain) && after == with_key(before, s, KeyRt { listen_gain: gain, ..before.keys[s] }),
            None => after == before,
        },
        Command::SetListenMute { endpoint, slot, muted } => match stream_position(
            before.keys,
            endpoint as int,
            slot,
            0,
        ) {
            Some(s) => after == with_key(before, s, KeyRt { listen_muted: muted, ..before.keys[s] }),
            None => after == before,
        },
        Command::SetInputGain { endpoint, db } => if endpoint < before.endpoints.len() {
            exists|gain: S| #[trigger]
                level_is(db, gain) && after == with_endpoint(
                    before,
                    endpoint as int,
                    EndpointRt { input_gain: gain, ..before.endpoints[endpoint as int] },
                )
        } else {
            after == before
        },
        Command::SetInputMute { endpoint, muted } => if endpoint < before.endpoints.len() {
            after == with_endpoint(
                before,
                endpoint as int,
                EndpointRt { input_muted: muted, ..before.endpoints[endpoint as int] },
            )
        } else {
            after == before
        },
        Command::ClearAllTalk => after == (EngineView {
            keys: Seq::new(before.keys.len(), |s: int| KeyRt { talk_on: false, ..before.keys[s] }),
            ..before
        }),
    }
}

} // verus!
