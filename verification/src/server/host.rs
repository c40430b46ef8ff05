//! The engine host: what the audio loop holds between blocks, and what each command does
//! to it.
//!
//! Editing the configuration rebuilds the engine, and a rebuilt engine starts with every
//! key released. So the host keeps the authoritative talk intent, by names that survive a
//! rebuild, and applies it again afterwards.

use vstd::prelude::*;

use crate::config::coherence::coherent;
use crate::config::findings::errors;
use crate::config::model::{Config, ConfigView, EndpointId};
use crate::engine::kernels::silent_vec;
use crate::engine::mixer::{routes_of, BuildError, Engine};
use crate::engine::plan::{
    applied, block_mixed, buffers_fit, compiled, lemma_stream_position, silent, stream_position, with_key,
    Command, EngineView, KeyRt,
};
use crate::ptp::port::PtpStatus;
use crate::ptp::servo::{counted, LockState};
use crate::sample::{
    at_most_is, bits_are, greater_is, logarithm_is, product_is, whole_is, Sample,
};
use crate::server::audio_io::StreamHealth;
use crate::server::talk::{
    in_order, key_label, label, labels_view, put, still_there, talking, IntentView, TalkMap,
};

verus! {

/// How often a meter snapshot is published.
pub const PUBLISH_INTERVAL_NANOS: u64 = 50_000_000;

/// Whether a snapshot is due, this long after the last.
pub fn publish_due(elapsed_nanos: u128) -> (r: bool)
    ensures
        r == (elapsed_nanos >= PUBLISH_INTERVAL_NANOS),
{
    elapsed_nanos >= PUBLISH_INTERVAL_NANOS as u128
}

/// Blocks per wake when there is no network to feed. With one it is a single block: every
/// millisecond of burstiness is a millisecond of latency that every receiver has to carry.
pub const SIMULATED_BLOCKS_PER_WAKE: usize = 20;

/// How many blocks to mix per wake.
pub fn blocks_per_wake(simulated: bool) -> (r: usize)
    ensures
        r == if simulated {
            SIMULATED_BLOCKS_PER_WAKE
        } else {
            1
        },
{
    if simulated {
        SIMULATED_BLOCKS_PER_WAKE
    } else {
        1
    }
}

/// A level reading tagged with the id it belongs to.
#[derive(Debug)]
pub struct Level<S> {
    pub id: String,
    /// Peak over the publish interval, in dB of full scale.
    pub db: S,
}

/// What is shown of the PTP clock.
#[derive(Debug)]
pub struct PtpHealth {
    pub state: LockState,
    pub grandmaster: Option<String>,
    pub offset_nanos: i64,
    pub steps: u64,
    /// How often the media timeline had to be snapped back to PTP.
    pub realignments: u64,
}

impl PtpHealth {
    /// What a port's status and the media timeline come to.
    pub fn new(status: PtpStatus, realignments: u64) -> (r: Self)
        ensures
            r == (PtpHealth {
                state: status.state,
                grandmaster: status.grandmaster,
                offset_nanos: status.offset_nanos,
                steps: status.steps,
                realignments,
            }),
    {
        PtpHealth {
            state: status.state,
            grandmaster: status.grandmaster,
            offset_nanos: status.offset_nanos,
            steps: status.steps,
            realignments,
        }
    }
}

/// A key to press or release.
#[derive(Debug)]
pub struct TalkRequest {
    pub endpoint: String,
    pub slot: u8,
    pub on: bool,
}

/// What the audio loop can be told between blocks.
#[derive(Debug)]
pub enum HostCommand {
    /// Take over an edited configuration.
    Rebuild(Config),
    SetTalk(TalkRequest),
    ClearAllTalk,
    /// For the engine itself.
    Engine(Command),
}

/// What is shown, once per publish interval.
#[derive(Debug)]
pub struct Snapshot<S> {
    /// Counts rebuilds.
    pub generation: u64,
    pub inputs: Vec<Level<S>>,
    pub buses: Vec<Level<S>>,
    /// What each key is hearing, by endpoint and slot.
    pub outputs: Vec<Level<S>>,
    /// Every key currently held.
    pub talking: Vec<String>,
    /// Blocks mixed since start.
    pub blocks: u64,
    /// Whether every microphone is a synthesised tone.
    pub simulated: bool,
    /// Receive health by endpoint. Empty when simulated.
    pub health: Vec<StreamHealth<S>>,
    /// The PTP clock, where there is one.
    pub ptp: Option<PtpHealth>,
    /// Ticks that missed their deadline.
    pub late_ticks: u64,
}

/// The bit pattern of a millionth, below which a level is silence.
pub const SILENCE_BITS: u32 = 0x3586_37BD;

/// What stands for silence, in dB.
pub const SILENCE_DB: i64 = -120;

/// The steps from a level to its decibels.
pub struct DecibelSteps<S> {
    pub floor: S,
    pub quiet: bool,
    pub twenty: S,
    pub logarithm: S,
}

pub open spec fn decibels_by<S: Sample>(v: S, w: DecibelSteps<S>, r: S) -> bool {
    &&& bits_are(SILENCE_BITS, w.floor)
    &&& at_most_is(v, w.floor, w.quiet)
    &&& if w.quiet {
        whole_is(SILENCE_DB as int, r)
    } else {
        &&& whole_is(20, w.twenty)
        &&& logarithm_is(v, w.logarithm)
        &&& product_is(w.twenty, w.logarithm, r)
    }
}

/// `r` is a linear level in decibels.
pub open spec fn decibels_are<S: Sample>(v: S, r: S) -> bool {
    exists|w: DecibelSteps<S>| #[trigger] decibels_by(v, w, r)
}

/// A linear level in decibels.
pub fn linear_to_db<S: Sample>(v: S) -> (r: S)
    ensures
        decibels_are(v, r),
{
    let floor = S::from_bits(SILENCE_BITS);
    let quiet = v.at_most(floor);
    if quiet {
        let r = S::whole(SILENCE_DB);
        let ghost w = DecibelSteps { floor, quiet, twenty: r, logarithm: r };
        assert(decibels_by(v, w, r));
        return r;
    }
    let twenty = S::whole(20);
    let logarithm = v.logarithm();
    let r = twenty.times(logarithm);
    let ghost w = DecibelSteps { floor, quiet, twenty, logarithm };
    assert(decibels_by(v, w, r));
    r
}

/// What the audio loop holds between blocks.
pub struct HostState<S> {
    config: Config,
    engine: Engine<S>,
    talk: TalkMap,
    generation: u64,
    blocks: u64,
    late_ticks: u64,
    in_peak: Vec<S>,
    bus_peak: Vec<S>,
    out_peak: Vec<S>,
}

/// The host as a mathematical value.
pub struct HostView<S> {
    pub config: ConfigView,
    pub engine: EngineView<S>,
    /// Authoritative talk intent.
    pub talk: Seq<IntentView>,
    pub generation: u64,
    pub blocks: u64,
    pub late_ticks: u64,
    /// Peaks held since the last snapshot.
    pub in_peak: Seq<S>,
    pub bus_peak: Seq<S>,
    pub out_peak: Seq<S>,
}

impl<S: Sample> View for HostState<S> {
    type V = HostView<S>;

    closed spec fn view(&self) -> HostView<S> {
        HostView {
            config: self.config@,
            engine: self.engine@,
            talk: self.talk@,
            generation: self.generation,
            blocks: self.blocks,
            late_ticks: self.late_ticks,
            in_peak: self.in_peak@,
            bus_peak: self.bus_peak@,
            out_peak: self.out_peak@,
        }
    }
}

/// The first position, from `from` on, of an id.
pub open spec fn id_position(ids: Seq<Seq<char>>, id: Seq<char>, from: int) -> Option<int>
    decreases ids.len() - from,
{
    if from < 0 || from >= ids.len() {
        None
    } else if ids[from] == id {
        Some(from)
    } else {
        id_position(ids, id, from + 1)
    }
}

pub proof fn lemma_id_position(ids: Seq<Seq<char>>, id: Seq<char>, from: int)
    requires
        0 <= from,
    ensures
        match id_position(ids, id, from) {
            Some(i) => from <= i < ids.len() && ids[i] == id && (forall|j: int|
                from <= j < i ==> #[trigger] ids[j] != id),
            None => forall|j: int| from <= j < ids.len() ==> #[trigger] ids[j] != id,
        },
    decreases ids.len() - from,
{
    if from < ids.len() && ids[from] != id {
        lemma_id_position(ids, id, from + 1);
    }
}

/// The engine with a talk key pressed or released, by index.
pub open spec fn talk_set<S: Sample>(v: EngineView<S>, endpoint: int, slot: u8, on: bool) -> EngineView<S> {
    match stream_position(v.keys, endpoint, slot, 0) {
        Some(s) => if v.keys[s].can_talk {
            with_key(v, s, KeyRt { talk_on: on, ..v.keys[s] })
        } else {
            v
        },
        None => v,
    }
}

/// The engine with a talk key pressed or released, by name. A name that the engine does
/// not know changes nothing.
pub open spec fn pressed<S: Sample>(v: EngineView<S>, t: IntentView) -> EngineView<S> {
    match id_position(v.endpoint_ids, t.endpoint, 0) {
        Some(e) => talk_set(v, e, t.slot, t.on),
        None => v,
    }
}

/// The engine with the first `n` intents applied.
pub open spec fn replayed<S: Sample>(v: EngineView<S>, talk: Seq<IntentView>, n: int) -> EngineView<S>
    decreases n,
{
    if n <= 0 {
        v
    } else {
        pressed(replayed(v, talk, n - 1), talk[n - 1])
    }
}

/// Silent peaks for every endpoint, bus and stream.
pub open spec fn peaks_reset<S: Sample>(v: HostView<S>) -> bool {
    &&& v.in_peak.len() == v.config.endpoints.len()
    &&& v.bus_peak.len() == v.config.partylines.len()
    &&& v.out_peak.len() == v.engine.keys.len()
    &&& silent(v.in_peak)
    &&& silent(v.bus_peak)
    &&& silent(v.out_peak)
}

/// A host that has just started.
pub open spec fn host_fresh<S: Sample>(c: ConfigView, v: HostView<S>) -> bool {
    &&& v.config == c
    &&& compiled(c, v.engine)
    &&& v.talk == Seq::<IntentView>::empty()
    &&& v.generation == 0
    &&& v.blocks == 0
    &&& v.late_ticks == 0
    &&& peaks_reset(v)
}

pub open spec fn rebuilt_from<S: Sample>(
    before: HostView<S>,
    c: ConfigView,
    fresh: EngineView<S>,
    after: HostView<S>,
) -> bool {
    let kept = before.talk.filter(still_there(c));
    &&& compiled(c, fresh)
    &&& after.config == c
    &&& after.talk == kept
    &&& after.engine == replayed(fresh, kept, kept.len() as int)
    &&& after.generation == counted(before.generation)
    &&& after.blocks == before.blocks
    &&& after.late_ticks == before.late_ticks
    &&& peaks_reset(after)
}

/// The host after a rebuild: a fresh engine with the intent for the keys that still exist
/// applied, and the rest dropped.
pub open spec fn rebuilt<S: Sample>(before: HostView<S>, c: ConfigView, after: HostView<S>) -> bool {
    exists|fresh: EngineView<S>| #[trigger] rebuilt_from(before, c, fresh, after)
}

/// The host with one key's intent remembered and applied.
pub open spec fn key_set<S: Sample>(v: HostView<S>, intent: IntentView) -> HostView<S> {
    HostView { talk: put(v.talk, intent), engine: pressed(v.engine, intent), ..v }
}

/// The host with every key released.
pub open spec fn talk_cleared<S: Sample>(before: HostView<S>, after: HostView<S>) -> bool {
    &&& after.talk == Seq::<IntentView>::empty()
    &&& applied(before.engine, Command::ClearAllTalk, after.engine)
    &&& after == (HostView { talk: after.talk, engine: after.engine, ..before })
}

/// The host with a command given to the engine.
pub open spec fn passed_on<S: Sample>(before: HostView<S>, cmd: Command, after: HostView<S>) -> bool {
    &&& applied(before.engine, cmd, after.engine)
    &&& after == (HostView { engine: after.engine, ..before })
}

/// The host with one more tick missed.
pub open spec fn tick_missed<S: Sample>(v: HostView<S>) -> HostView<S> {
    HostView { late_ticks: counted(v.late_ticks), ..v }
}

/// The host after a command.
pub open spec fn obeyed<S: Sample>(
    before: HostView<S>,
    cmd: HostCommand,
    after: HostView<S>,
    r: Result<bool, BuildError>,
) -> bool {
    match cmd {
        HostCommand::Rebuild(config) => match r {
            Ok(anew) => anew && coherent(config@) && rebuilt(before, config@, after),
            Err(BuildError::Invalid(count, first)) => {
                &&& !coherent(config@)
                &&& count == errors(config@).len()
                &&& first@ == errors(config@)[0].message
                &&& after == before
            },
        },
        HostCommand::SetTalk(req) => {
            let intent = IntentView { endpoint: req.endpoint@, slot: req.slot, on: req.on };
            &&& r == Ok::<bool, BuildError>(false)
            &&& after == key_set(before, intent)
        },
        HostCommand::ClearAllTalk => {
            &&& r == Ok::<bool, BuildError>(false)
            &&& talk_cleared(before, after)
        },
        HostCommand::Engine(c) => {
            &&& r == Ok::<bool, BuildError>(false)
            &&& passed_on(before, c, after)
        },
    }
}

/// Each peak the greater of what was held and what was metered.
pub open spec fn held<S: Sample>(before: Seq<S>, metered: Seq<S>, after: Seq<S>) -> bool {
    &&& after.len() == before.len()
    &&& forall|i: int| 0 <= i < before.len() ==> greater_is(before[i], metered[i], #[trigger] after[i])
}

/// The host after one block.
pub open spec fn block_done<S: Sample>(before: HostView<S>, mic_in: Seq<S>, after: HostView<S>) -> bool {
    &&& block_mixed(before.engine, mic_in, after.engine)
    &&& held(before.in_peak, after.engine.input_peaks, after.in_peak)
    &&& held(before.bus_peak, after.engine.bus_peaks, after.bus_peak)
    &&& held(before.out_peak, after.engine.output_peaks, after.out_peak)
    &&& after.blocks == counted(before.blocks)
    &&& after.config == before.config
    &&& after.talk == before.talk
    &&& after.generation == before.generation
    &&& after.late_ticks == before.late_ticks
}

/// One level for each id.
pub open spec fn levels_are<S: Sample>(ids: Seq<Seq<char>>, peaks: Seq<S>, levels: Seq<Level<S>>) -> bool {
    &&& levels.len() == ids.len()
    &&& forall|i: int| 0 <= i < ids.len() ==> level_is_of(ids[i], peaks[i], #[trigger] levels[i])
}

pub open spec fn level_is_of<S: Sample>(id: Seq<char>, peak: S, level: Level<S>) -> bool {
    level.id@ == id && decibels_are(peak, level.db)
}

pub open spec fn endpoint_labels(c: ConfigView) -> Seq<Seq<char>> {
    Seq::new(c.endpoints.len(), |i: int| c.endpoints[i].id)
}

pub open spec fn partyline_labels(c: ConfigView) -> Seq<Seq<char>> {
    Seq::new(c.partylines.len(), |i: int| c.partylines[i].id)
}

/// The streams by the keys that they feed.
pub open spec fn stream_labels<S: Sample>(v: HostView<S>) -> Seq<Seq<char>> {
    Seq::new(
        v.engine.keys.len(),
        |s: int| key_label(v.config.endpoints[v.engine.keys[s].endpoint as int].id, v.engine.keys[s].slot),
    )
}

/// What a snapshot says of a host.
pub open spec fn snapshot_is<S: Sample>(v: HostView<S>, snap: Snapshot<S>) -> bool {
    &&& snap.generation == v.generation
    &&& levels_are(endpoint_labels(v.config), v.in_peak, snap.inputs@)
    &&& levels_are(partyline_labels(v.config), v.bus_peak, snap.buses@)
    &&& levels_are(stream_labels(v), v.out_peak, snap.outputs@)
    &&& labels_view(snap.talking@) == talking(v.talk)
    &&& snap.blocks == v.blocks
    &&& snap.late_ticks == v.late_ticks
}

/// A snapshot taken, and the peaks started over.
pub open spec fn published<S: Sample>(
    before: HostView<S>,
    simulated: bool,
    health: Vec<StreamHealth<S>>,
    ptp: Option<PtpHealth>,
    snap: Snapshot<S>,
    after: HostView<S>,
) -> bool {
    &&& snapshot_is(before, snap)
    &&& snap.simulated == simulated
    &&& snap.health == health
    &&& snap.ptp == ptp
    &&& peaks_reset(after)
    &&& after == (HostView {
        in_peak: after.in_peak,
        bus_peak: after.bus_peak,
        out_peak: after.out_peak,
        ..before
    })
}

/// Holds the peak of each meter.
fn hold_peaks<S: Sample>(peaks: &mut Vec<S>, metered: &Vec<S>)
    requires
        old(peaks)@.len() == metered@.len(),
    ensures
        held(old(peaks)@, metered@, final(peaks)@),
{
    let mut i: usize = 0;
    while i < peaks.len()
        invariant
            i <= peaks@.len(),
            peaks@.len() == old(peaks)@.len(),
            peaks@.len() == metered@.len(),
            forall|j: int| 0 <= j < i ==> greater_is(old(peaks)@[j], metered@[j], #[trigger] peaks@[j]),
            forall|j: int| i <= j < peaks@.len() ==> #[trigger] peaks@[j] == old(peaks)@[j],
        decreases peaks@.len() - i,
    {
        let p = peaks[i];
        let r = p.greater(metered[i]);
        peaks.set(i, r);
        i += 1;
    }
}

/// Presses or releases a talk key by name.
fn press<S: Sample>(engine: &mut Engine<S>, endpoint: &str, slot: u8, on: bool)
    requires
        old(engine).wf(),
    ensures
        final(engine).wf(),
        final(engine)@ == pressed(old(engine)@, IntentView { endpoint: endpoint@, slot, on }),
{
    let ghost v = engine@;
    let id = EndpointId::new(endpoint);
    proof {
        lemma_id_position(v.endpoint_ids, endpoint@, 0);
    }
    if let Some(e) = engine.endpoint_index(&id) {
        assert(id_position(v.endpoint_ids, endpoint@, 0) == Some(e as int));
        engine.apply(Command::SetTalk { endpoint: e, slot, on });
    }
}

/// Pressing a key changes nothing but whether keys are held.
pub proof fn lemma_pressed_shape<S: Sample>(v: EngineView<S>, t: IntentView)
    ensures
        pressed(v, t).keys.len() == v.keys.len(),
        pressed(v, t) == (EngineView { keys: pressed(v, t).keys, ..v }),
        forall|s: int|
            0 <= s < v.keys.len() ==> #[trigger] pressed(v, t).keys[s] == (KeyRt {
                talk_on: pressed(v, t).keys[s].talk_on,
                ..v.keys[s]
            }),
{
    if let Some(e) = id_position(v.endpoint_ids, t.endpoint, 0) {
        lemma_stream_position(v.keys, e, t.slot, 0);
    }
}

/// No command adds or removes an endpoint, a bus or a stream.
proof fn lemma_applied_shape<S: Sample>(before: EngineView<S>, cmd: Command, after: EngineView<S>)
    requires
        applied(before, cmd, after),
    ensures
        after.block == before.block,
        after.endpoints.len() == before.endpoints.len(),
        after.bus_ids == before.bus_ids,
        after.keys.len() == before.keys.len(),
{
    match cmd {
        Command::SetTalk { endpoint, slot, .. } | Command::SetListenLevel { endpoint, slot, .. }
        | Command::SetListenMute { endpoint, slot, .. } => {
            lemma_stream_position(before.keys, endpoint as int, slot, 0);
        },
        _ => {},
    }
}

/// Applying intents changes nothing but whether keys are held.
pub proof fn lemma_replayed_shape<S: Sample>(v: EngineView<S>, talk: Seq<IntentView>, n: int)
    ensures
        replayed(v, talk, n).keys.len() == v.keys.len(),
        replayed(v, talk, n) == (EngineView { keys: replayed(v, talk, n).keys, ..v }),
        forall|s: int|
            0 <= s < v.keys.len() ==> #[trigger] replayed(v, talk, n).keys[s] == (KeyRt {
                talk_on: replayed(v, talk, n).keys[s].talk_on,
                ..v.keys[s]
            }),
    decreases n,
{
    if n > 0 {
        lemma_replayed_shape(v, talk, n - 1);
        lemma_pressed_shape(replayed(v, talk, n - 1), talk[n - 1]);
        let w = replayed(v, talk, n - 1);
        let x = replayed(v, talk, n);
        assert forall|s: int| 0 <= s < v.keys.len() implies #[trigger] x.keys[s] == (KeyRt {
            talk_on: x.keys[s].talk_on,
            ..v.keys[s]
        }) by {
            assert(x.keys[s] == (KeyRt { talk_on: x.keys[s].talk_on, ..w.keys[s] }));
            assert(w.keys[s] == (KeyRt { talk_on: w.keys[s].talk_on, ..v.keys[s] }));
        }
    }
}

impl<S: Sample> HostState<S> {
    pub closed spec fn wf(&self) -> bool {
        &&& self.engine.wf()
        &&& self.talk.wf()
        &&& coherent(self.config@)
        &&& buffers_fit(self.config@)
        &&& self.engine@.block == self.config@.system.ptime_samples
        &&& self.engine@.endpoints.len() == self.config@.endpoints.len()
        &&& self.engine@.bus_ids.len() == self.config@.partylines.len()
        &&& self.in_peak@.len() == self.config@.endpoints.len()
        &&& self.bus_peak@.len() == self.config@.partylines.len()
        &&& self.out_peak@.len() == self.engine@.keys.len()
    }

    /// What the invariant says of the mathematical value.
    pub proof fn lemma_wf(&self)
        requires
            self.wf(),
        ensures
            self@.engine.well_formed(),
            in_order(self@.talk),
            coherent(self@.config),
            self@.engine.block == self@.config.system.ptime_samples,
            self@.engine.endpoints.len() == self@.config.endpoints.len(),
    {
        self.engine.lemma_wf();
        self.talk.lemma_wf();
    }

    /// A host for a configuration, unless it cannot be built.
    pub fn new(config: Config) -> (r: Result<Self, BuildError>)
        requires
            coherent(config@) ==> buffers_fit(config@),
        ensures
            match r {
                Ok(host) => host.wf() && coherent(config@) && host_fresh(config@, host@),
                Err(BuildError::Invalid(count, first)) => {
                    &&& !coherent(config@)
                    &&& count == errors(config@).len()
                    &&& first@ == errors(config@)[0].message
                },
            },
    {
        let engine = match Engine::new(&config) {
            Ok(engine) => engine,
            Err(e) => {
                return Err(e);
            },
        };
        proof {
            engine.lemma_wf();
        }
        let in_peak = silent_vec(config.endpoints.len());
        let bus_peak = silent_vec(config.partylines.len());
        let out_peak = silent_vec(engine.stream_count());
        Ok(
            HostState {
                config,
                engine,
                talk: TalkMap::new(),
                generation: 0,
                blocks: 0,
                late_ticks: 0,
                in_peak,
                bus_peak,
                out_peak,
            },
        )
    }

    /// Take over an edited configuration. One that cannot be built changes nothing:
    /// dropping audio for it would be worse than carrying on.
    pub fn rebuild(&mut self, config: Config) -> (r: Result<(), BuildError>)
        requires
            old(self).wf(),
            coherent(config@) ==> buffers_fit(config@),
        ensures
            final(self).wf(),
            match r {
                Ok(()) => coherent(config@) && rebuilt(old(self)@, config@, final(self)@),
                Err(BuildError::Invalid(count, first)) => {
                    &&& !coherent(config@)
                    &&& count == errors(config@).len()
                    &&& first@ == errors(config@)[0].message
                    &&& final(self)@ == old(self)@
                },
            },
    {
        let ghost before = self@;
        let mut engine: Engine<S> = match Engine::new(&config) {
            Ok(engine) => engine,
            Err(e) => {
                return Err(e);
            },
        };
        let ghost c = config@;
        let ghost fresh = engine@;
        self.talk.retain(&config);
        let ghost kept = self.talk@;
        let mut i: usize = 0;
        while i < self.talk.len()
            invariant
                engine.wf(),
                kept == self.talk@,
                i <= kept.len(),
                engine@ == replayed(fresh, kept, i as int),
            decreases kept.len() - i,
        {
            let (endpoint, slot, on) = self.talk.get(i);
            press(&mut engine, endpoint, slot, on);
            assert(kept[i as int] == (IntentView { endpoint: endpoint@, slot, on }));
            i += 1;
        }
        proof {
            lemma_replayed_shape(fresh, kept, kept.len() as int);
            engine.lemma_wf();
        }
        self.in_peak = silent_vec(config.endpoints.len());
        self.bus_peak = silent_vec(config.partylines.len());
        self.out_peak = silent_vec(engine.stream_count());
        self.config = config;
        self.engine = engine;
        self.generation = self.generation.wrapping_add(1);
        assert(rebuilt_from(before, c, fresh, self@));
        Ok(())
    }

    /// Press or release a talk key by name, and remember it.
    pub fn set_talk(&mut self, endpoint: &str, slot: u8, on: bool)
        requires
            old(self).wf(),
        ensures
            final(self).wf(),
            final(self)@ == key_set(old(self)@, IntentView { endpoint: endpoint@, slot, on }),
    {
        let ghost v = self.engine@;
        self.talk.set(endpoint, slot, on);
        press(&mut self.engine, endpoint, slot, on);
        proof {
            lemma_pressed_shape(v, IntentView { endpoint: endpoint@, slot, on });
            self.engine.lemma_wf();
        }
    }

    /// Release every talk key, and forget all intent.
    pub fn clear_all_talk(&mut self)
        requires
            old(self).wf(),
        ensures
            final(self).wf(),
            talk_cleared(old(self)@, final(self)@),
    {
        self.talk.clear();
        self.engine.apply(Command::ClearAllTalk);
    }

    /// Hand a command to the engine.
    pub fn send(&mut self, cmd: Command)
        requires
            old(self).wf(),
        ensures
            final(self).wf(),
            passed_on(old(self)@, cmd, final(self)@),
    {
        let ghost before = self.engine@;
        self.engine.apply(cmd);
        proof {
            lemma_applied_shape(before, cmd, self.engine@);
        }
    }

    /// Do what the host is told. Returns whether the engine was built anew, so that its
    /// streams have to be bound anew too.
    pub fn obey(&mut self, cmd: HostCommand) -> (r: Result<bool, BuildError>)
        requires
            old(self).wf(),
            cmd matches HostCommand::Rebuild(config) ==> (coherent(config@) ==> buffers_fit(config@)),
        ensures
            final(self).wf(),
            obeyed(old(self)@, cmd, final(self)@, r),
    {
        match cmd {
            HostCommand::Rebuild(config) => match self.rebuild(config) {
                Ok(()) => Ok(true),
                Err(e) => Err(e),
            },
            HostCommand::SetTalk(req) => {
                self.set_talk(req.endpoint.as_str(), req.slot, req.on);
                Ok(false)
            },
            HostCommand::ClearAllTalk => {
                self.clear_all_talk();
                Ok(false)
            },
            HostCommand::Engine(c) => {
                self.send(c);
                Ok(false)
            },
        }
    }

    /// Mix one block, and hold its peaks.
    pub fn process(&mut self, mic_in: &[S])
        requires
            old(self).wf(),
            mic_in@.len() == old(self)@.engine.endpoints.len() * old(self)@.engine.block,
        ensures
            final(self).wf(),
            block_done(old(self)@, mic_in@, final(self)@),
    {
        self.engine.process(mic_in);
        self.blocks = self.blocks.wrapping_add(1);
        proof {
            self.engine.lemma_wf();
        }
        let m = self.engine.meters();
        hold_peaks(&mut self.in_peak, &m.inputs);
        hold_peaks(&mut self.bus_peak, &m.buses);
        hold_peaks(&mut self.out_peak, &m.outputs);
    }

    /// Count a tick that missed its deadline.
    pub fn late_tick(&mut self)
        requires
            old(self).wf(),
        ensures
            final(self).wf(),
            final(self)@ == tick_missed(old(self)@),
    {
        self.late_ticks = self.late_ticks.wrapping_add(1);
    }

    pub fn config(&self) -> (r: &Config)
        ensures
            r@ == self@.config,
    {
        &self.config
    }

    pub fn engine(&self) -> (r: &Engine<S>)
        requires
            self.wf(),
        ensures
            r@ == self@.engine,
            r.wf(),
    {
        &self.engine
    }

    fn input_levels(&self) -> (r: Vec<Level<S>>)
        requires
            self.wf(),
        ensures
            levels_are(endpoint_labels(self@.config), self@.in_peak, r@),
    {
        let mut out: Vec<Level<S>> = Vec::new();
        let mut i: usize = 0;
        let ghost ids = endpoint_labels(self@.config);
        while i < self.config.endpoints.len()
            invariant
                self.wf(),
                ids == endpoint_labels(self@.config),
                i <= self.config.endpoints@.len(),
                out@.len() == i,
                forall|j: int| 0 <= j < i ==> level_is_of(ids[j], self.in_peak@[j], #[trigger] out@[j]),
            decreases self.config.endpoints@.len() - i,
        {
            let level = Level {
                id: self.config.endpoints[i].id.0.clone(),
                db: linear_to_db(self.in_peak[i]),
            };
            assert(level.id@ == ids[i as int]);
            out.push(level);
            i += 1;
        }
        out
    }

    fn bus_levels(&self) -> (r: Vec<Level<S>>)
        requires
            self.wf(),
        ensures
            levels_are(partyline_labels(self@.config), self@.bus_peak, r@),
    {
        let mut out: Vec<Level<S>> = Vec::new();
        let mut i: usize = 0;
        let ghost ids = partyline_labels(self@.config);
        while i < self.config.partylines.len()
            invariant
                self.wf(),
                ids == partyline_labels(self@.config),
                i <= self.config.partylines@.len(),
                out@.len() == i,
                forall|j: int| 0 <= j < i ==> level_is_of(ids[j], self.bus_peak@[j], #[trigger] out@[j]),
            decreases self.config.partylines@.len() - i,
        {
            let level = Level {
                id: self.config.partylines[i].id.0.clone(),
                db: linear_to_db(self.bus_peak[i]),
            };
            assert(level.id@ == ids[i as int]);
            out.push(level);
            i += 1;
        }
        out
    }

    fn output_levels(&self) -> (r: Vec<Level<S>>)
        requires
            self.wf(),
        ensures
            levels_are(stream_labels(self@), self@.out_peak, r@),
    {
        let mut out: Vec<Level<S>> = Vec::new();
        let mut s: usize = 0;
        let ghost ids = stream_labels(self@);
        let routes = self.engine.routes();
        proof {
            self.engine.lemma_wf();
        }
        while s < routes.len()
            invariant
                self.wf(),
                self.engine@.well_formed(),
                routes@ == routes_of(self.engine@.keys),
                ids == stream_labels(self@),
                s <= routes@.len(),
                out@.len() == s,
                forall|j: int| 0 <= j < s ==> level_is_of(ids[j], self.out_peak@[j], #[trigger] out@[j]),
            decreases routes@.len() - s,
        {
            let route = routes[s];
            assert(self.engine@.key_well_formed(self.engine@.keys[s as int]));
            let level = Level {
                id: label(self.config.endpoints[route.endpoint].id.as_str(), route.slot),
                db: linear_to_db(self.out_peak[s]),
            };
            assert(level.id@ == ids[s as int]);
            out.push(level);
            s += 1;
        }
        out
    }

    /// Take a snapshot, and start holding peaks anew.
    pub fn publish(
        &mut self,
        simulated: bool,
        health: Vec<StreamHealth<S>>,
        ptp: Option<PtpHealth>,
    ) -> (snap: Snapshot<S>)
        requires
            old(self).wf(),
        ensures
            final(self).wf(),
            published(old(self)@, simulated, health, ptp, snap, final(self)@),
    {
        let snap = Snapshot {
            generation: self.generation,
            inputs: self.input_levels(),
            buses: self.bus_levels(),
            outputs: self.output_levels(),
            talking: self.talk.talking(),
            blocks: self.blocks,
            simulated,
            health,
            ptp,
            late_ticks: self.late_ticks,
        };
        self.in_peak = silent_vec(self.config.endpoints.len());
        self.bus_peak = silent_vec(self.config.partylines.len());
        self.out_peak = silent_vec(self.engine.stream_count());
        snap
    }
}

} // verus!
