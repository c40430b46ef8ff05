//! The data model of a configuration.

use vstd::prelude::*;

use crate::text::{lemma_text_order_transitive, order_of, text_before, Order};

verus! {

broadcast use vstd::string::group_string_axioms;

/// Maximum keys per endpoint, one per stream a client may receive.
pub const MAX_KEYS: usize = 10;

/// The only sample rate AES67 requires every device to support.
pub const DEFAULT_SAMPLE_RATE: u32 = 48_000;

/// Samples per packet at the default 1 ms packet time and 48 kHz.
pub const DEFAULT_PTIME_SAMPLES: u32 = 48;

/// A single-precision number, held by its IEEE 754 bit pattern.
///
/// A configuration carries levels and times; only the signal path computes with them.
#[derive(Clone, Copy, Debug, PartialEq, Eq, Structural)]
pub struct Single {
    pub bits: u32,
}

/// The bit pattern of five, the default talk ramp in milliseconds.
pub const DEFAULT_TALK_RAMP_BITS: u32 = 0x40A0_0000;

/// Stable identifier of an endpoint, a slug.
#[derive(Debug, PartialEq, Eq, PartialOrd, Ord, Hash)]
pub struct EndpointId(pub String);

/// Stable identifier of a partyline, a slug.
#[derive(Debug, PartialEq, Eq, PartialOrd, Ord, Hash)]
pub struct PartylineId(pub String);

impl View for EndpointId {
    type V = Seq<char>;

    open spec fn view(&self) -> Seq<char> {
        self.0@
    }
}

impl View for PartylineId {
    type V = Seq<char>;

    open spec fn view(&self) -> Seq<char> {
        self.0@
    }
}

impl EndpointId {
    pub fn new(s: &str) -> (r: Self)
        ensures
            r@ == s@,
    {
        EndpointId(s.to_owned())
    }

    pub fn as_str(&self) -> (r: &str)
        ensures
            r@ == self@,
    {
        self.0.as_str()
    }

    /// Whether two ids are the same slug.
    pub fn same(&self, other: &EndpointId) -> (r: bool)
        ensures
            r == (self@ == other@),
    {
        self.0 == other.0
    }
}

impl PartylineId {
    pub fn new(s: &str) -> (r: Self)
        ensures
            r@ == s@,
    {
        PartylineId(s.to_owned())
    }

    pub fn as_str(&self) -> (r: &str)
        ensures
            r@ == self@,
    {
        self.0.as_str()
    }

    /// Whether two ids are the same slug.
    pub fn same(&self, other: &PartylineId) -> (r: bool)
        ensures
            r == (self@ == other@),
    {
        self.0 == other.0
    }
}

impl From<String> for EndpointId {
    fn from(s: String) -> (r: Self) {
        EndpointId(s)
    }
}

impl vstd::std_specs::convert::FromSpecImpl<String> for EndpointId {
    open spec fn obeys_from_spec() -> bool {
        true
    }

    open spec fn from_spec(s: String) -> Self {
        EndpointId(s)
    }
}

impl From<&str> for EndpointId {
    fn from(s: &str) -> (r: Self)
        ensures
            r@ == s@,
    {
        EndpointId(s.to_owned())
    }
}

impl vstd::std_specs::convert::FromSpecImpl<&str> for EndpointId {
    open spec fn obeys_from_spec() -> bool {
        false
    }

    open spec fn from_spec(s: &str) -> Self {
        arbitrary()
    }
}

impl Clone for EndpointId {
    fn clone(&self) -> (r: Self)
        ensures
            r == *self,
    {
        EndpointId(self.0.clone())
    }
}

impl From<String> for PartylineId {
    fn from(s: String) -> (r: Self) {
        PartylineId(s)
    }
}

impl vstd::std_specs::convert::FromSpecImpl<String> for PartylineId {
    open spec fn obeys_from_spec() -> bool {
        true
    }

    open spec fn from_spec(s: String) -> Self {
        PartylineId(s)
    }
}

impl From<&str> for PartylineId {
    fn from(s: &str) -> (r: Self)
        ensures
            r@ == s@,
    {
        PartylineId(s.to_owned())
    }
}

impl vstd::std_specs::convert::FromSpecImpl<&str> for PartylineId {
    open spec fn obeys_from_spec() -> bool {
        false
    }

    open spec fn from_spec(s: &str) -> Self {
        arbitrary()
    }
}

impl Clone for PartylineId {
    fn clone(&self) -> (r: Self)
        ensures
            r == *self,
    {
        PartylineId(self.0.clone())
    }
}

/// What kind of client an endpoint is. It decides which transport reaches it.
#[derive(Clone, Copy, Debug, PartialEq, Eq, Structural)]
pub enum EndpointKind {
    Desktop,
    Hardware,
    Mobile,
    Browser,
    /// A third-party AES67 device with no client of its own.
    Aes67External,
}

impl Default for EndpointKind {
    fn default() -> (r: Self)
        ensures
            r == EndpointKind::Desktop,
    {
        EndpointKind::Desktop
    }
}

impl EndpointKind {
    /// Whether this kind receives discrete per-key AES67 streams: phones and browsers
    /// do not, everything else does.
    pub open spec fn takes_aes67(self) -> bool {
        self != EndpointKind::Mobile && self != EndpointKind::Browser
    }

    /// Whether this kind receives discrete per-key AES67 streams.
    pub fn uses_aes67(self) -> (r: bool)
        ensures
            r == self.takes_aes67(),
    {
        matches!(self, EndpointKind::Desktop | EndpointKind::Hardware | EndpointKind::Aes67External)
    }
}

/// How the talk button behaves. The client enforces it.
#[derive(Clone, Copy, Debug, PartialEq, Eq, Structural)]
pub enum TalkMode {
    /// Press to latch on, press again to release.
    Latching,
    /// Talk only while held.
    Momentary,
    /// No talk path at all.
    ListenOnly,
}

impl Default for TalkMode {
    fn default() -> (r: Self)
        ensures
            r == TalkMode::Latching,
    {
        TalkMode::Latching
    }
}

impl TalkMode {
    pub fn can_talk(self) -> (r: bool)
        ensures
            r == (self != TalkMode::ListenOnly),
    {
        !matches!(self, TalkMode::ListenOnly)
    }
}

/// Where a key points.
#[derive(Debug, PartialEq, Eq)]
pub enum KeyTarget {
    /// A shared bus. The endpoint hears the bus minus its own contribution.
    Partyline(PartylineId),
    /// A point-to-point path to one other endpoint.
    Direct(EndpointId),
}

/// A key target as a mathematical value.
pub enum TargetView {
    Partyline(Seq<char>),
    Direct(Seq<char>),
}

impl View for KeyTarget {
    type V = TargetView;

    open spec fn view(&self) -> TargetView {
        match *self {
            KeyTarget::Partyline(p) => TargetView::Partyline(p@),
            KeyTarget::Direct(e) => TargetView::Direct(e@),
        }
    }
}

impl Clone for KeyTarget {
    fn clone(&self) -> (r: Self)
        ensures
            r == *self,
    {
        match self {
            KeyTarget::Partyline(p) => KeyTarget::Partyline(p.clone()),
            KeyTarget::Direct(e) => KeyTarget::Direct(e.clone()),
        }
    }
}

impl KeyTarget {
    /// Whether two targets name the same place.
    pub fn same(&self, other: &KeyTarget) -> (r: bool)
        ensures
            r == (self@ == other@),
    {
        match self {
            KeyTarget::Partyline(p) => match other {
                KeyTarget::Partyline(q) => p.same(q),
                KeyTarget::Direct(_) => false,
            },
            KeyTarget::Direct(d) => match other {
                KeyTarget::Partyline(_) => false,
                KeyTarget::Direct(e) => d.same(e),
            },
        }
    }

    /// Whether this is a direct key to the given endpoint.
    pub fn is_direct_to(&self, id: &EndpointId) -> (r: bool)
        ensures
            r == (self@ == TargetView::Direct(id@)),
    {
        match self {
            KeyTarget::Partyline(_) => false,
            KeyTarget::Direct(e) => e.same(id),
        }
    }

    /// Whether this is a key on the given partyline.
    pub fn is_partyline(&self, id: &PartylineId) -> (r: bool)
        ensures
            r == (self@ == TargetView::Partyline(id@)),
    {
        match self {
            KeyTarget::Partyline(p) => p.same(id),
            KeyTarget::Direct(_) => false,
        }
    }
}

/// An optional text as a mathematical value.
pub open spec fn optional_text(t: Option<String>) -> Option<Seq<char>> {
    match t {
        Some(s) => Some(s@),
        None => None,
    }
}

/// One button on a panel: a listen path, and optionally a talk path, to one target.
#[derive(Debug, PartialEq, Eq)]
pub struct Key {
    /// Position on the panel, below `MAX_KEYS`. Also selects which of the endpoint's
    /// streams carries this key's audio.
    pub slot: u8,
    pub target: KeyTarget,
    /// Authored default level.
    pub listen_level_db: Single,
    pub listen_muted: bool,
    pub talk_mode: TalkMode,
    /// Display override. Defaults to the target's name.
    pub label: Option<String>,
}

/// A key as a mathematical value.
#[verifier::ext_equal]
pub struct KeyView {
    pub slot: u8,
    pub target: TargetView,
    pub listen_level_db: Single,
    pub listen_muted: bool,
    pub talk_mode: TalkMode,
    pub label: Option<Seq<char>>,
}

impl View for Key {
    type V = KeyView;

    open spec fn view(&self) -> KeyView {
        KeyView {
            slot: self.slot,
            target: self.target@,
            listen_level_db: self.listen_level_db,
            listen_muted: self.listen_muted,
            talk_mode: self.talk_mode,
            label: optional_text(self.label),
        }
    }
}

/// What a freshly assigned key looks like.
pub open spec fn fresh_key(slot: u8, target: TargetView) -> KeyView {
    KeyView {
        slot,
        target,
        listen_level_db: Single { bits: 0 },
        listen_muted: false,
        talk_mode: TalkMode::Latching,
        label: None,
    }
}

impl Clone for Key {
    fn clone(&self) -> (r: Self)
        ensures
            r == *self,
    {
        Key {
            slot: self.slot,
            target: self.target.clone(),
            listen_level_db: self.listen_level_db,
            listen_muted: self.listen_muted,
            talk_mode: self.talk_mode,
            label: self.label.clone(),
        }
    }
}

impl Key {
    pub fn new(slot: u8, target: KeyTarget) -> (r: Self)
        ensures
            r@ == fresh_key(slot, target@),
            r.target == target,
    {
        Key {
            slot,
            target,
            listen_level_db: Single { bits: 0 },
            listen_muted: false,
            talk_mode: TalkMode::Latching,
            label: None,
        }
    }
}

/// The keys of an endpoint as mathematical values.
pub open spec fn keys_view(keys: Seq<Key>) -> Seq<KeyView> {
    Seq::new(keys.len(), |i: int| keys[i]@)
}

/// Anything that can talk and listen.
#[derive(Debug, PartialEq, Eq)]
pub struct Endpoint {
    pub id: EndpointId,
    pub name: String,
    pub kind: EndpointKind,
    /// Gain applied to this endpoint's microphone before it reaches any bus.
    pub input_gain_db: Single,
    /// Hard mute of the microphone. Overrides every talk key.
    pub input_muted: bool,
    pub keys: Vec<Key>,
}

/// An endpoint as a mathematical value.
#[verifier::ext_equal]
pub struct EndpointView {
    pub id: Seq<char>,
    pub name: Seq<char>,
    pub kind: EndpointKind,
    pub input_gain_db: Single,
    pub input_muted: bool,
    pub keys: Seq<KeyView>,
}

impl View for Endpoint {
    type V = EndpointView;

    open spec fn view(&self) -> EndpointView {
        EndpointView {
            id: self.id@,
            name: self.name@,
            kind: self.kind,
            input_gain_db: self.input_gain_db,
            input_muted: self.input_muted,
            keys: keys_view(self.keys@),
        }
    }
}

impl EndpointView {
    /// Whether a key sits in the slot.
    pub open spec fn slot_used(self, slot: int) -> bool {
        exists|i: int| 0 <= i < self.keys.len() && #[trigger] self.keys[i].slot == slot
    }

    /// The first position, from `from` on, of a key in the slot.
    pub open spec fn key_position(self, slot: int, from: int) -> Option<int>
        decreases self.keys.len() - from,
    {
        if from < 0 || from >= self.keys.len() {
            None
        } else if self.keys[from].slot == slot {
            Some(from)
        } else {
            self.key_position(slot, from + 1)
        }
    }

    /// The lowest slot, from `from` on, that no key sits in.
    pub open spec fn lowest_free(self, from: int) -> Option<int>
        decreases MAX_KEYS - from,
    {
        if from >= MAX_KEYS {
            None
        } else if !self.slot_used(from) {
            Some(from)
        } else {
            self.lowest_free(from + 1)
        }
    }

    /// The endpoint with one more key, in the lowest free slot; itself when full.
    pub open spec fn assigned(self, target: TargetView) -> EndpointView {
        match self.lowest_free(0) {
            Some(slot) => EndpointView {
                keys: self.keys.push(fresh_key(slot as u8, target)),
                ..self
            },
            None => self,
        }
    }
}

impl Clone for Endpoint {
    fn clone(&self) -> (r: Self)
        ensures
            r@ == self@,
            r.id == self.id,
    {
        let keys = clone_keys(&self.keys);
        Endpoint {
            id: self.id.clone(),
            name: self.name.clone(),
            kind: self.kind,
            input_gain_db: self.input_gain_db,
            input_muted: self.input_muted,
            keys,
        }
    }
}

fn clone_keys(keys: &Vec<Key>) -> (r: Vec<Key>)
    ensures
        keys_view(r@) == keys_view(keys@),
{
    let mut out: Vec<Key> = Vec::new();
    let mut i: usize = 0;
    while i < keys.len()
        invariant
            i <= keys.len(),
            out@ == keys@.take(i as int),
        decreases keys.len() - i,
    {
        out.push(keys[i].clone());
        i += 1;
        assert(out@ =~= keys@.take(i as int));
    }
    assert(keys@.take(i as int) =~= keys@);
    out
}

impl Endpoint {
    pub fn new(id: EndpointId, name: String) -> (r: Self)
        ensures
            r@ == (EndpointView {
                id: id@,
                name: name@,
                kind: EndpointKind::Desktop,
                input_gain_db: Single { bits: 0 },
                input_muted: false,
                keys: Seq::empty(),
            }),
    {
        let r = Endpoint {
            id,
            name,
            kind: EndpointKind::Desktop,
            input_gain_db: Single { bits: 0 },
            input_muted: false,
            keys: Vec::new(),
        };
        assert(keys_view(r.keys@) =~= Seq::<KeyView>::empty());
        r
    }

    /// The lowest key slot not already in use, or `None` if the endpoint is full.
    pub fn free_slot(&self) -> (r: Option<u8>)
        ensures
            match r {
                Some(slot) => self@.lowest_free(0) == Some(slot as int),
                None => self@.lowest_free(0) is None,
            },
            match r {
                Some(slot) => slot < MAX_KEYS && !self@.slot_used(slot as int) && (forall|s: int|
                    0 <= s < slot ==> #[trigger] self@.slot_used(s)),
                None => forall|s: int| 0 <= s < MAX_KEYS ==> #[trigger] self@.slot_used(s),
            },
    {
        let mut slot: u8 = 0;
        while slot < 10
            invariant
                slot <= 10,
                forall|s: int| 0 <= s < slot ==> #[trigger] self@.slot_used(s),
                self@.lowest_free(0) == self@.lowest_free(slot as int),
            decreases 10 - slot,
        {
            if self.key(slot).is_none() {
                return Some(slot);
            }
            slot += 1;
        }
        None
    }

    /// Assign a target to the next free key slot.
    ///
    /// Membership is a key, so creating membership is allocating one.
    pub fn assign(&mut self, target: KeyTarget) -> (r: Option<&mut Key>)
        ensures
            match r {
                Some(key) => {
                    &&& old(self)@.lowest_free(0) is Some
                    &&& key@ == fresh_key(old(self)@.lowest_free(0)->0 as u8, target@)
                    &&& final(self)@ == (EndpointView {
                        keys: old(self)@.keys.push(final(key)@),
                        ..old(self)@
                    })
                },
                None => old(self)@.lowest_free(0) is None && final(self)@ == old(self)@,
            },
    {
        match self.free_slot() {
            None => None,
            Some(slot) => {
                let ghost before = self.keys@;
                self.keys.push(Key::new(slot, target));
                let n: usize = self.keys.len() - 1;
                proof {
                    assert forall|k: Key| keys_view(#[trigger] before.push(k)) == keys_view(before).push(k@) by {
                        assert(keys_view(before.push(k)) =~= keys_view(before).push(k@));
                    }
                    assert forall|k: Key| self.keys@.update(n as int, k) == #[trigger] before.push(k) by {
                        assert(self.keys@.update(n as int, k) =~= before.push(k));
                    }
                }
                Some(&mut self.keys[n])
            },
        }
    }

    /// The key in a slot.
    pub fn key(&self, slot: u8) -> (r: Option<&Key>)
        ensures
            match r {
                Some(key) => {
                    &&& self@.key_position(slot as int, 0) is Some
                    &&& 0 <= self@.key_position(slot as int, 0)->0 < self.keys@.len()
                    &&& *key == self.keys@[self@.key_position(slot as int, 0)->0]
                    &&& key.slot == slot
                    &&& self@.slot_used(slot as int)
                },
                None => self@.key_position(slot as int, 0) is None && !self@.slot_used(slot as int),
            },
    {
        let mut i: usize = 0;
        while i < self.keys.len()
            invariant
                i <= self.keys.len(),
                self@.key_position(slot as int, 0) == self@.key_position(slot as int, i as int),
                forall|j: int| 0 <= j < i ==> self@.keys[j].slot != slot,
            decreases self.keys.len() - i,
        {
            if self.keys[i].slot == slot {
                assert(self@.keys[i as int].slot == slot);
                return Some(&self.keys[i]);
            }
            i += 1;
        }
        None
    }
}

/// A partyline: a bus that every member talks onto and hears back minus themselves.
#[derive(Debug, PartialEq, Eq)]
pub struct Partyline {
    pub id: PartylineId,
    pub name: String,
    /// A hint for displays. Nothing else reads it.
    pub colour: Option<String>,
    /// Trim applied to every contribution to the bus.
    pub bus_trim_db: Single,
}

/// A partyline as a mathematical value.
#[verifier::ext_equal]
pub struct PartylineView {
    pub id: Seq<char>,
    pub name: Seq<char>,
    pub colour: Option<Seq<char>>,
    pub bus_trim_db: Single,
}

impl View for Partyline {
    type V = PartylineView;

    open spec fn view(&self) -> PartylineView {
        PartylineView {
            id: self.id@,
            name: self.name@,
            colour: optional_text(self.colour),
            bus_trim_db: self.bus_trim_db,
        }
    }
}

impl Clone for Partyline {
    fn clone(&self) -> (r: Self)
        ensures
            r == *self,
    {
        Partyline {
            id: self.id.clone(),
            name: self.name.clone(),
            colour: self.colour.clone(),
            bus_trim_db: self.bus_trim_db,
        }
    }
}

impl Partyline {
    pub fn new(id: PartylineId, name: String) -> (r: Self)
        ensures
            r@ == (PartylineView { id: id@, name: name@, colour: None, bus_trim_db: Single { bits: 0 } }),
    {
        Partyline { id, name, colour: None, bus_trim_db: Single { bits: 0 } }
    }
}

/// System-wide audio and identity settings.
#[derive(Debug, PartialEq, Eq)]
pub struct SystemConfig {
    pub name: String,
    pub sample_rate: u32,
    /// Samples per RTP packet, and therefore the engine's block size.
    pub ptime_samples: u32,
    /// Milliseconds to ramp a talk key in and out.
    pub talk_ramp_ms: Single,
}

/// System settings as a mathematical value.
#[verifier::ext_equal]
pub struct SystemView {
    pub name: Seq<char>,
    pub sample_rate: u32,
    pub ptime_samples: u32,
    pub talk_ramp_ms: Single,
}

impl View for SystemConfig {
    type V = SystemView;

    open spec fn view(&self) -> SystemView {
        SystemView {
            name: self.name@,
            sample_rate: self.sample_rate,
            ptime_samples: self.ptime_samples,
            talk_ramp_ms: self.talk_ramp_ms,
        }
    }
}

pub fn default_system_name() -> (r: String)
    ensures
        r@ == "squawk"@,
{
    "squawk".to_owned()
}

pub fn default_sample_rate() -> (r: u32)
    ensures
        r == DEFAULT_SAMPLE_RATE,
{
    DEFAULT_SAMPLE_RATE
}

pub fn default_ptime() -> (r: u32)
    ensures
        r == DEFAULT_PTIME_SAMPLES,
{
    DEFAULT_PTIME_SAMPLES
}

pub fn default_talk_ramp_ms() -> (r: Single)
    ensures
        r.bits == DEFAULT_TALK_RAMP_BITS,
{
    Single { bits: DEFAULT_TALK_RAMP_BITS }
}

/// The settings of a system that sets nothing.
pub open spec fn default_system() -> SystemView {
    SystemView {
        name: "squawk"@,
        sample_rate: DEFAULT_SAMPLE_RATE,
        ptime_samples: DEFAULT_PTIME_SAMPLES,
        talk_ramp_ms: Single { bits: DEFAULT_TALK_RAMP_BITS },
    }
}

impl Default for SystemConfig {
    fn default() -> (r: Self)
        ensures
            r@ == default_system(),
    {
        SystemConfig {
            name: default_system_name(),
            sample_rate: default_sample_rate(),
            ptime_samples: default_ptime(),
            talk_ramp_ms: default_talk_ramp_ms(),
        }
    }
}

impl Clone for SystemConfig {
    fn clone(&self) -> (r: Self)
        ensures
            r == *self,
    {
        SystemConfig {
            name: self.name.clone(),
            sample_rate: self.sample_rate,
            ptime_samples: self.ptime_samples,
            talk_ramp_ms: self.talk_ramp_ms,
        }
    }
}

/// A complete authored system.
#[derive(Debug, PartialEq, Eq)]
pub struct Config {
    pub system: SystemConfig,
    pub partylines: Vec<Partyline>,
    pub endpoints: Vec<Endpoint>,
}

/// A configuration as a mathematical value.
#[verifier::ext_equal]
pub struct ConfigView {
    pub system: SystemView,
    pub partylines: Seq<PartylineView>,
    pub endpoints: Seq<EndpointView>,
}

/// Endpoints as mathematical values.
pub open spec fn endpoints_view(endpoints: Seq<Endpoint>) -> Seq<EndpointView> {
    Seq::new(endpoints.len(), |i: int| endpoints[i]@)
}

/// Partylines as mathematical values.
pub open spec fn partylines_view(partylines: Seq<Partyline>) -> Seq<PartylineView> {
    Seq::new(partylines.len(), |i: int| partylines[i]@)
}

impl View for Config {
    type V = ConfigView;

    open spec fn view(&self) -> ConfigView {
        ConfigView {
            system: self.system@,
            partylines: partylines_view(self.partylines@),
            endpoints: endpoints_view(self.endpoints@),
        }
    }
}

impl Default for Config {
    fn default() -> (r: Self)
        ensures
            r@ == (ConfigView {
                system: default_system(),
                partylines: Seq::empty(),
                endpoints: Seq::empty(),
            }),
    {
        let r = Config { system: SystemConfig::default(), partylines: Vec::new(), endpoints: Vec::new() };
        assert(r@.partylines =~= Seq::<PartylineView>::empty());
        assert(r@.endpoints =~= Seq::<EndpointView>::empty());
        r
    }
}

impl Clone for Config {
    fn clone(&self) -> (r: Self)
        ensures
            r@ == self@,
    {
        let mut partylines: Vec<Partyline> = Vec::new();
        let mut i: usize = 0;
        while i < self.partylines.len()
            invariant
                i <= self.partylines.len(),
                partylines@ == self.partylines@.take(i as int),
            decreases self.partylines.len() - i,
        {
            partylines.push(self.partylines[i].clone());
            i += 1;
            assert(partylines@ =~= self.partylines@.take(i as int));
        }
        assert(self.partylines@.take(i as int) =~= self.partylines@);
        let mut endpoints: Vec<Endpoint> = Vec::new();
        let mut j: usize = 0;
        while j < self.endpoints.len()
            invariant
                j <= self.endpoints.len(),
                endpoints_view(endpoints@) == endpoints_view(self.endpoints@).take(j as int),
            decreases self.endpoints.len() - j,
        {
            let e = self.endpoints[j].clone();
            let ghost before = endpoints@;
            endpoints.push(e);
            proof {
                assert(endpoints_view(endpoints@) =~= endpoints_view(before).push(e@));
                assert(endpoints_view(self.endpoints@).take(j as int + 1) =~= endpoints_view(
                    self.endpoints@,
                ).take(j as int).push(self.endpoints@[j as int]@));
            }
            j += 1;
        }
        assert(endpoints_view(self.endpoints@).take(j as int) =~= endpoints_view(self.endpoints@));
        Config { system: self.system.clone(), partylines, endpoints }
    }
}

/// The first position, from `from` on, of an endpoint with the id.
pub open spec fn endpoint_position(endpoints: Seq<EndpointView>, id: Seq<char>, from: int) -> Option<int>
    decreases endpoints.len() - from,
{
    if from < 0 || from >= endpoints.len() {
        None
    } else if endpoints[from].id == id {
        Some(from)
    } else {
        endpoint_position(endpoints, id, from + 1)
    }
}

/// The first position, from `from` on, of a partyline with the id.
pub open spec fn partyline_position(partylines: Seq<PartylineView>, id: Seq<char>, from: int) -> Option<int>
    decreases partylines.len() - from,
{
    if from < 0 || from >= partylines.len() {
        None
    } else if partylines[from].id == id {
        Some(from)
    } else {
        partyline_position(partylines, id, from + 1)
    }
}

/// A found endpoint position holds the id, and nothing before it does.
pub proof fn lemma_endpoint_position(endpoints: Seq<EndpointView>, id: Seq<char>, from: int)
    requires
        0 <= from,
    ensures
        match endpoint_position(endpoints, id, from) {
            Some(i) => {
                &&& from <= i < endpoints.len()
                &&& endpoints[i].id == id
                &&& forall|j: int| from <= j < i ==> endpoints[j].id != id
            },
            None => forall|j: int| from <= j < endpoints.len() ==> endpoints[j].id != id,
        },
    decreases endpoints.len() - from,
{
    if from < endpoints.len() && endpoints[from].id != id {
        lemma_endpoint_position(endpoints, id, from + 1);
    }
}

/// A found partyline position holds the id, and nothing before it does.
pub proof fn lemma_partyline_position(partylines: Seq<PartylineView>, id: Seq<char>, from: int)
    requires
        0 <= from,
    ensures
        match partyline_position(partylines, id, from) {
            Some(i) => {
                &&& from <= i < partylines.len()
                &&& partylines[i].id == id
                &&& forall|j: int| from <= j < i ==> partylines[j].id != id
            },
            None => forall|j: int| from <= j < partylines.len() ==> partylines[j].id != id,
        },
    decreases partylines.len() - from,
{
    if from < partylines.len() && partylines[from].id != id {
        lemma_partyline_position(partylines, id, from + 1);
    }
}

/// A found key position holds the slot, and no earlier key does.
pub proof fn lemma_key_position(e: EndpointView, slot: int, from: int)
    requires
        0 <= from,
    ensures
        match e.key_position(slot, from) {
            Some(i) => {
                &&& from <= i < e.keys.len()
                &&& e.keys[i].slot == slot
                &&& forall|j: int| from <= j < i ==> e.keys[j].slot != slot
            },
            None => forall|j: int| from <= j < e.keys.len() ==> e.keys[j].slot != slot,
        },
    decreases e.keys.len() - from,
{
    if from < e.keys.len() && e.keys[from].slot != slot {
        lemma_key_position(e, slot, from + 1);
    }
}

impl ConfigView {
    pub open spec fn endpoint_at(self, id: Seq<char>) -> Option<int> {
        endpoint_position(self.endpoints, id, 0)
    }

    pub open spec fn partyline_at(self, id: Seq<char>) -> Option<int> {
        partyline_position(self.partylines, id, 0)
    }

    /// Every endpoint with a key on the partyline, with the slot of that key, in order.
    pub open spec fn members(self, partyline: Seq<char>) -> Seq<(EndpointView, u8)> {
        self.endpoints.flat_map(members_among(partyline))
    }

    /// The ids of the members of a partyline, in order.
    pub open spec fn member_ids(self, partyline: Seq<char>) -> Seq<Seq<char>> {
        Seq::new(self.members(partyline).len(), |i: int| self.members(partyline)[i].0.id)
    }

    /// Whether some key in the configuration targets the partyline.
    pub open spec fn partyline_targeted(self, partyline: Seq<char>) -> bool {
        exists|i: int, j: int|
            #![trigger self.endpoints[i].keys[j]]
            0 <= i < self.endpoints.len() && 0 <= j < self.endpoints[i].keys.len()
                && self.endpoints[i].keys[j].target == TargetView::Partyline(partyline)
    }

    /// One stream per key on every AES67 endpoint.
    pub open spec fn stream_total(self) -> nat {
        stream_total(self.endpoints)
    }
}

/// Whether a key is on the partyline.
pub open spec fn on_partyline(partyline: Seq<char>) -> spec_fn(KeyView) -> bool {
    |k: KeyView| k.target == TargetView::Partyline(partyline)
}

/// The memberships that one endpoint has on a partyline: one for each key on it.
pub open spec fn memberships(e: EndpointView, partyline: Seq<char>) -> Seq<(EndpointView, u8)> {
    let keys = e.keys.filter(on_partyline(partyline));
    Seq::new(keys.len(), |i: int| (e, keys[i].slot))
}

pub open spec fn members_among(partyline: Seq<char>) -> spec_fn(EndpointView) -> Seq<(EndpointView, u8)> {
    |e: EndpointView| memberships(e, partyline)
}

/// Keys on AES67 endpoints, counted.
pub open spec fn stream_total(endpoints: Seq<EndpointView>) -> nat
    decreases endpoints.len(),
{
    if endpoints.len() == 0 {
        0
    } else {
        let last = endpoints.last();
        stream_total(endpoints.drop_last()) + if last.kind.takes_aes67() {
            last.keys.len()
        } else {
            0
        }
    }
}

proof fn lemma_stream_total_grows(endpoints: Seq<EndpointView>, n: int)
    requires
        0 <= n <= endpoints.len(),
    ensures
        stream_total(endpoints.take(n)) <= stream_total(endpoints),
    decreases endpoints.len() - n,
{
    if n < endpoints.len() {
        lemma_stream_total_grows(endpoints, n + 1);
        assert(endpoints.take(n + 1).drop_last() =~= endpoints.take(n));
    } else {
        assert(endpoints.take(n) =~= endpoints);
    }
}

impl Config {
    /// The first endpoint with the id.
    pub fn endpoint(&self, id: &EndpointId) -> (r: Option<&Endpoint>)
        ensures
            match r {
                Some(e) => {
                    &&& self@.endpoint_at(id@) is Some
                    &&& 0 <= self@.endpoint_at(id@)->0 < self.endpoints@.len()
                    &&& *e == self.endpoints@[self@.endpoint_at(id@)->0]
                    &&& e@.id == id@
                },
                None => self@.endpoint_at(id@) is None,
            },
    {
        match self.endpoint_index(id) {
            Some(i) => Some(&self.endpoints[i]),
            None => None,
        }
    }

    /// The position of the first endpoint with the id.
    pub fn endpoint_index(&self, id: &EndpointId) -> (r: Option<usize>)
        ensures
            match r {
                Some(i) => {
                    &&& self@.endpoint_at(id@) == Some(i as int)
                    &&& i < self.endpoints@.len()
                    &&& self.endpoints@[i as int]@.id == id@
                },
                None => self@.endpoint_at(id@) is None,
            },
    {
        let mut i: usize = 0;
        while i < self.endpoints.len()
            invariant
                i <= self.endpoints.len(),
                self@.endpoint_at(id@) == endpoint_position(self@.endpoints, id@, i as int),
            decreases self.endpoints.len() - i,
        {
            if self.endpoints[i].id.same(id) {
                return Some(i);
            }
            i += 1;
        }
        None
    }

    /// The first endpoint with the id, to change in place.
    pub fn endpoint_mut(&mut self, id: &EndpointId) -> (r: Option<&mut Endpoint>)
        ensures
            match r {
                Some(e) => {
                    &&& old(self)@.endpoint_at(id@) is Some
                    &&& e@ == old(self)@.endpoints[old(self)@.endpoint_at(id@)->0]
                    &&& final(self)@ == (ConfigView {
                        endpoints: old(self)@.endpoints.update(
                            old(self)@.endpoint_at(id@)->0,
                            final(e)@,
                        ),
                        ..old(self)@
                    })
                },
                None => old(self)@.endpoint_at(id@) is None && final(self)@ == old(self)@,
            },
    {
        match self.endpoint_index(id) {
            Some(i) => {
                let ghost before = self.endpoints@;
                proof {
                    assert forall|e: Endpoint| endpoints_view(#[trigger] before.update(i as int, e))
                        == endpoints_view(before).update(i as int, e@) by {
                        assert(endpoints_view(before.update(i as int, e)) =~= endpoints_view(before).update(
                            i as int,
                            e@,
                        ));
                    }
                }
                Some(&mut self.endpoints[i])
            },
            None => None,
        }
    }

    /// The position of the first partyline with the id.
    pub fn partyline_index(&self, id: &PartylineId) -> (r: Option<usize>)
        ensures
            match r {
                Some(i) => {
                    &&& self@.partyline_at(id@) == Some(i as int)
                    &&& i < self.partylines@.len()
                    &&& self.partylines@[i as int]@.id == id@
                },
                None => self@.partyline_at(id@) is None,
            },
    {
        let mut i: usize = 0;
        while i < self.partylines.len()
            invariant
                i <= self.partylines.len(),
                self@.partyline_at(id@) == partyline_position(self@.partylines, id@, i as int),
            decreases self.partylines.len() - i,
        {
            if self.partylines[i].id.same(id) {
                return Some(i);
            }
            i += 1;
        }
        None
    }

    /// The first partyline with the id.
    pub fn partyline(&self, id: &PartylineId) -> (r: Option<&Partyline>)
        ensures
            match r {
                Some(p) => {
                    &&& self@.partyline_at(id@) is Some
                    &&& 0 <= self@.partyline_at(id@)->0 < self.partylines@.len()
                    &&& *p == self.partylines@[self@.partyline_at(id@)->0]
                    &&& p@.id == id@
                },
                None => self@.partyline_at(id@) is None,
            },
    {
        match self.partyline_index(id) {
            Some(i) => Some(&self.partylines[i]),
            None => None,
        }
    }
}

/// The slots of an endpoint's keys on a partyline, in order.
fn member_slots(e: &Endpoint, id: &PartylineId) -> (r: Vec<u8>)
    ensures
        r@.len() == memberships(e@, id@).len(),
        forall|i: int| 0 <= i < r@.len() ==> #[trigger] memberships(e@, id@)[i] == (e@, r@[i]),
{
    let mut out: Vec<u8> = Vec::new();
    let mut i: usize = 0;
    let ghost keys = e@.keys;
    let ghost p = on_partyline(id@);
    while i < e.keys.len()
        invariant
            i <= e.keys.len(),
            keys == e@.keys,
            p == on_partyline(id@),
            out@.len() == keys.take(i as int).filter(p).len(),
            forall|j: int| 0 <= j < out@.len() ==> #[trigger] keys.take(i as int).filter(p)[j].slot == out@[j],
        decreases e.keys.len() - i,
    {
        proof {
            assert(keys.take(i + 1) =~= keys.take(i as int).push(keys[i as int]));
            keys.take(i as int).lemma_filter_push(keys[i as int], p);
        }
        let ghost before = out@;
        if e.keys[i].target.is_partyline(id) {
            out.push(e.keys[i].slot);
        }
        i += 1;
        assert forall|j: int| 0 <= j < out@.len() implies #[trigger] keys.take(i as int).filter(p)[j].slot
            == out@[j] by {
            if j < before.len() {
                assert(keys.take(i - 1).filter(p)[j].slot == before[j]);
            }
        }
    }
    assert(keys.take(i as int) =~= keys);
    out
}

/// Members, each by its mathematical value.
pub open spec fn members_view(members: Seq<(&Endpoint, u8)>) -> Seq<(EndpointView, u8)> {
    Seq::new(members.len(), |i: int| (members[i].0@, members[i].1))
}

/// Ids in strictly ascending order.
pub open spec fn ascending(ids: Seq<PartylineId>) -> bool {
    forall|i: int, j: int| 0 <= i < j < ids.len() ==> text_before(#[trigger] ids[i]@, #[trigger] ids[j]@)
}

/// Whether an id stands in a list of ids.
pub open spec fn lists(ids: Seq<PartylineId>, id: Seq<char>) -> bool {
    exists|i: int| 0 <= i < ids.len() && #[trigger] ids[i]@ == id
}

/// Puts an id where it belongs in an ascending list, once.
fn insert_ascending(ids: &mut Vec<PartylineId>, id: &PartylineId)
    requires
        ascending(old(ids)@),
    ensures
        ascending(final(ids)@),
        forall|t: Seq<char>| #[trigger] lists(final(ids)@, t) <==> (lists(old(ids)@, t) || t == id@),
{
    let mut i: usize = 0;
    while i < ids.len()
        invariant
            i <= ids.len(),
            ids@ == old(ids)@,
            ascending(ids@),
            forall|j: int| 0 <= j < i ==> text_before(#[trigger] ids@[j]@, id@),
        ensures
            i < ids.len() ==> text_before(id@, ids@[i as int]@),
        decreases ids.len() - i,
    {
        match order_of(ids[i].as_str(), id.as_str()) {
            Order::Before => {},
            Order::Same => {
                assert(lists(ids@, id@));
                return;
            },
            Order::After => {
                break;
            },
        }
        i += 1;
    }
    let ghost before = ids@;
    ids.insert(i, id.clone());
    proof {
        let after = ids@;
        assert forall|a: int, b: int| 0 <= a < b < after.len() implies text_before(
            #[trigger] after[a]@,
            #[trigger] after[b]@,
        ) by {
            let a0 = if a < i { a } else { a - 1 };
            let b0 = if b < i { b } else { b - 1 };
            if a == i {
                if b0 > i {
                    lemma_text_order_transitive(id@, before[i as int]@, before[b0]@);
                }
            } else if b != i {
                assert(text_before(before[a0]@, before[b0]@));
            } else {
                assert(text_before(before[a0]@, id@));
            }
        }
        assert forall|t: Seq<char>| #[trigger] lists(after, t) <==> (lists(before, t) || t == id@) by {
            if lists(before, t) {
                let k = choose|k: int| 0 <= k < before.len() && #[trigger] before[k]@ == t;
                let k1 = if k < i { k } else { k + 1 };
                assert(after[k1]@ == t);
            }
            if lists(after, t) {
                let k = choose|k: int| 0 <= k < after.len() && #[trigger] after[k]@ == t;
                if k < i {
                    assert(before[k]@ == t);
                } else if k > i {
                    assert(before[k - 1]@ == t);
                }
            }
            assert(after[i as int]@ == id@);
        }
    }
}

/// The members of one partyline, by id.
#[derive(Debug, PartialEq, Eq)]
pub struct Membership {
    pub partyline: PartylineId,
    pub members: Vec<EndpointId>,
}

/// Whether a list has every partyline that there is or that some key targets, and no other.
pub open spec fn lines_listed(c: ConfigView, r: Seq<Membership>) -> bool {
    forall|t: Seq<char>|
        (exists|i: int| 0 <= i < r.len() && #[trigger] r[i].partyline@ == t) <==> (#[trigger] c.partyline_at(t) is Some
            || c.partyline_targeted(t))
}

/// Ids as texts.
pub open spec fn ids_view(ids: Seq<EndpointId>) -> Seq<Seq<char>> {
    Seq::new(ids.len(), |i: int| ids[i]@)
}

impl Config {
    /// Every endpoint with a key targeting this partyline, with the slot of that key.
    pub fn members_of(&self, id: &PartylineId) -> (r: Vec<(&Endpoint, u8)>)
        ensures
            members_view(r@) == self@.members(id@),
    {
        let mut out: Vec<(&Endpoint, u8)> = Vec::new();
        let mut i: usize = 0;
        let ghost f = members_among(id@);
        let ghost endpoints = self@.endpoints;
        proof {
            assert(endpoints.take(0).flat_map(f) =~= Seq::<(EndpointView, u8)>::empty()) by {
                reveal_with_fuel(Seq::flatten, 1);
            }
        }
        while i < self.endpoints.len()
            invariant
                i <= self.endpoints.len(),
                f == members_among(id@),
                endpoints == self@.endpoints,
                members_view(out@) == endpoints.take(i as int).flat_map(f),
            decreases self.endpoints.len() - i,
        {
            let slots = member_slots(&self.endpoints[i], id);
            let ghost before = members_view(out@);
            let ghost own = memberships(endpoints[i as int], id@);
            proof {
                endpoints.lemma_flat_map_take_append(f, i as int);
            }
            let mut j: usize = 0;
            while j < slots.len()
                invariant
                    i < self.endpoints.len(),
                    j <= slots.len(),
                    own == memberships(self.endpoints@[i as int]@, id@),
                    slots@.len() == own.len(),
                    forall|k: int| 0 <= k < slots@.len() ==> #[trigger] own[k] == (self.endpoints@[i as int]@, slots@[k]),
                    members_view(out@) == before + own.take(j as int),
                decreases slots.len() - j,
            {
                let ghost prev = out@;
                out.push((&self.endpoints[i], slots[j]));
                proof {
                    assert(members_view(out@) =~= members_view(prev).push(own[j as int]));
                    assert(own.take(j as int + 1) =~= own.take(j as int).push(own[j as int]));
                    assert(members_view(out@) =~= before + own.take(j as int + 1));
                }
                j += 1;
            }
            assert(own.take(j as int) =~= own);
            i += 1;
        }
        assert(endpoints.take(i as int) =~= endpoints);
        out
    }

    /// How many AES67 streams the server must transmit: one per key on every AES67
    /// endpoint.
    pub fn aes67_stream_count(&self) -> (r: usize)
        requires
            self@.stream_total() <= usize::MAX,
        ensures
            r == self@.stream_total(),
    {
        let mut total: usize = 0;
        let mut i: usize = 0;
        let ghost endpoints = self@.endpoints;
        while i < self.endpoints.len()
            invariant
                i <= self.endpoints.len(),
                endpoints == self@.endpoints,
                stream_total(endpoints) <= usize::MAX,
                total == stream_total(endpoints.take(i as int)),
            decreases self.endpoints.len() - i,
        {
            proof {
                assert(endpoints.take(i + 1).drop_last() =~= endpoints.take(i as int));
                lemma_stream_total_grows(endpoints, i + 1);
            }
            if self.endpoints[i].kind.uses_aes67() {
                total += self.endpoints[i].keys.len();
            }
            i += 1;
        }
        assert(endpoints.take(i as int) =~= endpoints);
        total
    }

    /// Endpoint ids grouped by partyline, in ascending order of partyline id.
    ///
    /// Every partyline is listed, and so is every id that some key targets.
    pub fn membership_map(&self) -> (r: Vec<Membership>)
        ensures
            forall|i: int, j: int| 0 <= i < j < r@.len() ==> text_before(
                #[trigger] r@[i].partyline@,
                #[trigger] r@[j].partyline@,
            ),
            forall|i: int| 0 <= i < r@.len() ==> ids_view(#[trigger] r@[i].members@) == self@.member_ids(
                r@[i].partyline@,
            ),
            lines_listed(self@, r@),
    {
        let ids = self.partyline_ids();
        let mut out: Vec<Membership> = Vec::new();
        let mut i: usize = 0;
        while i < ids.len()
            invariant
                i <= ids.len(),
                out@.len() == i,
                forall|k: int| 0 <= k < i ==> #[trigger] out@[k].partyline@ == ids@[k]@,
                forall|k: int| 0 <= k < i ==> ids_view(#[trigger] out@[k].members@) == self@.member_ids(ids@[k]@),
            decreases ids.len() - i,
        {
            let members = self.members_of(&ids[i]);
            let mut list: Vec<EndpointId> = Vec::new();
            let mut j: usize = 0;
            while j < members.len()
                invariant
                    i < ids.len(),
                    j <= members.len(),
                    members_view(members@) == self@.members(ids@[i as int]@),
                    list@.len() == j,
                    forall|k: int| 0 <= k < j ==> #[trigger] list@[k]@ == members@[k].0@.id,
                decreases members.len() - j,
            {
                list.push(members[j].0.id.clone());
                j += 1;
            }
            proof {
                let want = self@.member_ids(ids@[i as int]@);
                assert(ids_view(list@).len() == want.len());
                assert forall|k: int| 0 <= k < want.len() implies ids_view(list@)[k] == want[k] by {
                    assert(members_view(members@)[k].0 == members@[k].0@);
                    assert(list@[k]@ == members@[k].0@.id);
                }
                assert(ids_view(list@) =~= want);
            }
            out.push(Membership { partyline: ids[i].clone(), members: list });
            i += 1;
        }
        proof {
            assert forall|t: Seq<char>|
                (exists|k: int| 0 <= k < out@.len() && #[trigger] out@[k].partyline@ == t) <==> (
                #[trigger] self@.partyline_at(t) is Some || self@.partyline_targeted(t)) by {
                assert(lists(ids@, t) <==> (self@.partyline_at(t) is Some || self@.partyline_targeted(t)));
                if lists(ids@, t) {
                    let k = choose|k: int| 0 <= k < ids@.len() && #[trigger] ids@[k]@ == t;
                    assert(out@[k].partyline@ == t);
                }
                if exists|k: int| 0 <= k < out@.len() && #[trigger] out@[k].partyline@ == t {
                    let k = choose|k: int| 0 <= k < out@.len() && #[trigger] out@[k].partyline@ == t;
                    assert(ids@[k]@ == t);
                }
            }
            assert forall|a: int, b: int| 0 <= a < b < out@.len() implies text_before(
                #[trigger] out@[a].partyline@,
                #[trigger] out@[b].partyline@,
            ) by {
                assert(text_before(ids@[a]@, ids@[b]@));
            }
        }
        out
    }

    /// Every partyline id that exists or is targeted, in ascending order.
    fn partyline_ids(&self) -> (ids: Vec<PartylineId>)
        ensures
            ascending(ids@),
            forall|t: Seq<char>| #[trigger]
                lists(ids@, t) <==> (self@.partyline_at(t) is Some || self@.partyline_targeted(t)),
    {
        let mut ids: Vec<PartylineId> = Vec::new();
        let mut i: usize = 0;
        while i < self.partylines.len()
            invariant
                i <= self.partylines.len(),
                ascending(ids@),
                forall|t: Seq<char>| #[trigger]
                    lists(ids@, t) <==> (exists|k: int| 0 <= k < i && #[trigger] self@.partylines[k].id == t),
            decreases self.partylines.len() - i,
        {
            let ghost before = ids@;
            insert_ascending(&mut ids, &self.partylines[i].id);
            i += 1;
            proof {
                assert forall|t: Seq<char>| #[trigger]
                    lists(ids@, t) <==> (exists|k: int| 0 <= k < i && #[trigger] self@.partylines[k].id == t) by {
                    assert(lists(ids@, t) <==> (lists(before, t) || t == self@.partylines[i - 1].id));
                    if exists|k: int| 0 <= k < i && #[trigger] self@.partylines[k].id == t {
                        let k = choose|k: int| 0 <= k < i && #[trigger] self@.partylines[k].id == t;
                        if k < i - 1 {
                            assert(exists|k: int| 0 <= k < i - 1 && #[trigger] self@.partylines[k].id == t);
                        }
                    }
                }
            }
        }
        proof {
            assert forall|t: Seq<char>| #[trigger] lists(ids@, t) <==> self@.partyline_at(t) is Some by {
                lemma_partyline_position(self@.partylines, t, 0);
                if self@.partyline_at(t) is Some {
                    assert(self@.partylines[self@.partyline_at(t)->0].id == t);
                }
            }
        }
        let mut a: usize = 0;
        while a < self.endpoints.len()
            invariant
                a <= self.endpoints.len(),
                ascending(ids@),
                forall|t: Seq<char>| #[trigger]
                    lists(ids@, t) <==> (self@.partyline_at(t) is Some || targeted_before(self@, t, a as int, 0)),
            decreases self.endpoints.len() - a,
        {
            let mut b: usize = 0;
            while b < self.endpoints[a].keys.len()
                invariant
                    a < self.endpoints.len(),
                    b <= self.endpoints@[a as int].keys@.len(),
                    ascending(ids@),
                    forall|t: Seq<char>| #[trigger]
                        lists(ids@, t) <==> (self@.partyline_at(t) is Some || targeted_before(
                            self@,
                            t,
                            a as int,
                            b as int,
                        )),
                decreases self.endpoints@[a as int].keys@.len() - b,
            {
                let ghost before = ids@;
                let ghost target = self@.endpoints[a as int].keys[b as int].target;
                match &self.endpoints[a].keys[b].target {
                    KeyTarget::Partyline(pid) => {
                        insert_ascending(&mut ids, pid);
                    },
                    KeyTarget::Direct(_) => {},
                }
                proof {
                    assert forall|t: Seq<char>| #[trigger]
                        lists(ids@, t) <==> (self@.partyline_at(t) is Some || targeted_before(
                            self@,
                            t,
                            a as int,
                            b + 1,
                        )) by {
                        assert(lists(ids@, t) <==> (lists(before, t) || target == TargetView::Partyline(t)));
                        assert(targeted_before(self@, t, a as int, b + 1) <==> (targeted_before(
                            self@,
                            t,
                            a as int,
                            b as int,
                        ) || target == TargetView::Partyline(t))) by {
                            lemma_targeted_step(self@, t, a as int, b as int);
                        }
                    }
                }
                b += 1;
            }
            proof {
                assert forall|t: Seq<char>| #[trigger] targeted_before(self@, t, a + 1, 0) == targeted_before(
                    self@,
                    t,
                    a as int,
                    b as int,
                ) by {
                    lemma_targeted_row(self@, t, a as int);
                }
            }
            a += 1;
        }
        proof {
            assert forall|t: Seq<char>| #[trigger] lists(ids@, t) <==> (self@.partyline_at(t) is Some
                || self@.partyline_targeted(t)) by {
                assert(targeted_before(self@, t, a as int, 0) == self@.partyline_targeted(t)) by {
                    if self@.partyline_targeted(t) {
                        let (i, j) = choose|i: int, j: int|
                            #![trigger self@.endpoints[i].keys[j]]
                            0 <= i < self@.endpoints.len() && 0 <= j < self@.endpoints[i].keys.len()
                                && self@.endpoints[i].keys[j].target == TargetView::Partyline(t);
                        assert(self@.endpoints[i].keys[j].target == TargetView::Partyline(t));
                    }
                }
            }
        }
        ids
    }
}

/// Whether a key before key `b` of endpoint `a` targets the partyline.
spec fn targeted_before(c: ConfigView, partyline: Seq<char>, a: int, b: int) -> bool {
    exists|i: int, j: int|
        #![trigger c.endpoints[i].keys[j]]
        0 <= i < c.endpoints.len() && 0 <= j < c.endpoints[i].keys.len() && (i < a || (i == a && j < b))
            && c.endpoints[i].keys[j].target == TargetView::Partyline(partyline)
}

proof fn lemma_targeted_step(c: ConfigView, t: Seq<char>, a: int, b: int)
    requires
        0 <= a < c.endpoints.len(),
        0 <= b < c.endpoints[a].keys.len(),
    ensures
        targeted_before(c, t, a, b + 1) <==> (targeted_before(c, t, a, b) || c.endpoints[a].keys[b].target
            == TargetView::Partyline(t)),
{
    if targeted_before(c, t, a, b + 1) {
        let (i, j) = choose|i: int, j: int|
            #![trigger c.endpoints[i].keys[j]]
            0 <= i < c.endpoints.len() && 0 <= j < c.endpoints[i].keys.len() && (i < a || (i == a && j < b + 1))
                && c.endpoints[i].keys[j].target == TargetView::Partyline(t);
        assert(c.endpoints[i].keys[j].target == TargetView::Partyline(t));
    }
    if targeted_before(c, t, a, b) {
        let (i, j) = choose|i: int, j: int|
            #![trigger c.endpoints[i].keys[j]]
            0 <= i < c.endpoints.len() && 0 <= j < c.endpoints[i].keys.len() && (i < a || (i == a && j < b))
                && c.endpoints[i].keys[j].target == TargetView::Partyline(t);
        assert(c.endpoints[i].keys[j].target == TargetView::Partyline(t));
    }
}

proof fn lemma_targeted_row(c: ConfigView, t: Seq<char>, a: int)
    requires
        0 <= a < c.endpoints.len(),
    ensures
        targeted_before(c, t, a + 1, 0) <==> targeted_before(c, t, a, c.endpoints[a].keys.len() as int),
{
    if targeted_before(c, t, a + 1, 0) {
        let (i, j) = choose|i: int, j: int|
            #![trigger c.endpoints[i].keys[j]]
            0 <= i < c.endpoints.len() && 0 <= j < c.endpoints[i].keys.len() && (i < a + 1 || (i == a + 1 && j < 0))
                && c.endpoints[i].keys[j].target == TargetView::Partyline(t);
        assert(c.endpoints[i].keys[j].target == TargetView::Partyline(t));
    }
    if targeted_before(c, t, a, c.endpoints[a].keys.len() as int) {
        let (i, j) = choose|i: int, j: int|
            #![trigger c.endpoints[i].keys[j]]
            0 <= i < c.endpoints.len() && 0 <= j < c.endpoints[i].keys.len() && (i < a || (i == a && j
                < c.endpoints[a].keys.len())) && c.endpoints[i].keys[j].target == TargetView::Partyline(t);
        assert(c.endpoints[i].keys[j].target == TargetView::Partyline(t));
    }
}

} // verus!
