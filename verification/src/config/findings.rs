//! What validation can find, and where it finds it.

use vstd::prelude::*;

use crate::config::model::{
    ConfigView, EndpointId, EndpointView, PartylineId, SystemView, TalkMode, TargetView, MAX_KEYS,
};
use crate::text::decimal;

verus! {

/// How badly a problem matters.
#[derive(Clone, Copy, Debug, PartialEq, Eq, PartialOrd, Ord, Structural)]
pub enum Severity {
    /// The config is coherent but probably not what was meant.
    Warning,
    /// The config cannot be turned into a working routing table.
    Error,
}

/// A specific thing wrong with a config.
#[allow(inconsistent_fields)]
#[derive(Debug, PartialEq, Eq)]
pub enum ProblemKind {
    DuplicateEndpointId(EndpointId),
    DuplicatePartylineId(PartylineId),
    TooManyKeys { endpoint: EndpointId, count: usize },
    KeySlotOutOfRange { endpoint: EndpointId, slot: u8 },
    DuplicateKeySlot { endpoint: EndpointId, slot: u8 },
    DuplicateKeyTarget { endpoint: EndpointId, slots: (u8, u8) },
    UnknownPartyline { endpoint: EndpointId, slot: u8, target: PartylineId },
    UnknownEndpoint { endpoint: EndpointId, slot: u8, target: EndpointId },
    DirectToSelf { endpoint: EndpointId, slot: u8 },
    UnsupportedSampleRate(u32),
    PtimeNotWholeMilliseconds { ptime: u32, sample_rate: u32 },
    OneWayDirect { from: EndpointId, to: EndpointId },
    EmptyPartyline(PartylineId),
    LonelyPartyline(PartylineId),
    EndpointWithNoKeys(EndpointId),
    EndpointCannotTalk(EndpointId),
}

/// A kind of problem as a mathematical value.
pub enum KindView {
    DuplicateEndpointId(Seq<char>),
    DuplicatePartylineId(Seq<char>),
    TooManyKeys { endpoint: Seq<char>, count: nat },
    KeySlotOutOfRange { endpoint: Seq<char>, slot: u8 },
    DuplicateKeySlot { endpoint: Seq<char>, slot: u8 },
    DuplicateKeyTarget { endpoint: Seq<char>, slots: (u8, u8) },
    UnknownPartyline { endpoint: Seq<char>, slot: u8, target: Seq<char> },
    UnknownEndpoint { endpoint: Seq<char>, slot: u8, target: Seq<char> },
    DirectToSelf { endpoint: Seq<char>, slot: u8 },
    UnsupportedSampleRate(u32),
    PtimeNotWholeMilliseconds { ptime: u32, sample_rate: u32 },
    OneWayDirect { from: Seq<char>, to: Seq<char> },
    EmptyPartyline(Seq<char>),
    LonelyPartyline(Seq<char>),
    EndpointWithNoKeys(Seq<char>),
    EndpointCannotTalk(Seq<char>),
}

impl View for ProblemKind {
    type V = KindView;

    open spec fn view(&self) -> KindView {
        match *self {
            ProblemKind::DuplicateEndpointId(e) => KindView::DuplicateEndpointId(e@),
            ProblemKind::DuplicatePartylineId(p) => KindView::DuplicatePartylineId(p@),
            ProblemKind::TooManyKeys { endpoint, count } => KindView::TooManyKeys {
                endpoint: endpoint@,
                count: count as nat,
            },
            ProblemKind::KeySlotOutOfRange { endpoint, slot } => KindView::KeySlotOutOfRange {
                endpoint: endpoint@,
                slot,
            },
            ProblemKind::DuplicateKeySlot { endpoint, slot } => KindView::DuplicateKeySlot {
                endpoint: endpoint@,
                slot,
            },
            ProblemKind::DuplicateKeyTarget { endpoint, slots } => KindView::DuplicateKeyTarget {
                endpoint: endpoint@,
                slots,
            },
            ProblemKind::UnknownPartyline { endpoint, slot, target } => KindView::UnknownPartyline {
                endpoint: endpoint@,
                slot,
                target: target@,
            },
            ProblemKind::UnknownEndpoint { endpoint, slot, target } => KindView::UnknownEndpoint {
                endpoint: endpoint@,
                slot,
                target: target@,
            },
            ProblemKind::DirectToSelf { endpoint, slot } => KindView::DirectToSelf {
                endpoint: endpoint@,
                slot,
            },
            ProblemKind::UnsupportedSampleRate(rate) => KindView::UnsupportedSampleRate(rate),
            ProblemKind::PtimeNotWholeMilliseconds { ptime, sample_rate } => {
                KindView::PtimeNotWholeMilliseconds { ptime, sample_rate }
            },
            ProblemKind::OneWayDirect { from, to } => KindView::OneWayDirect { from: from@, to: to@ },
            ProblemKind::EmptyPartyline(p) => KindView::EmptyPartyline(p@),
            ProblemKind::LonelyPartyline(p) => KindView::LonelyPartyline(p@),
            ProblemKind::EndpointWithNoKeys(e) => KindView::EndpointWithNoKeys(e@),
            ProblemKind::EndpointCannotTalk(e) => KindView::EndpointCannotTalk(e@),
        }
    }
}

impl Clone for ProblemKind {
    fn clone(&self) -> (r: Self)
        ensures
            r == *self,
    {
        match self {
            ProblemKind::DuplicateEndpointId(e) => ProblemKind::DuplicateEndpointId(e.clone()),
            ProblemKind::DuplicatePartylineId(p) => ProblemKind::DuplicatePartylineId(p.clone()),
            ProblemKind::TooManyKeys { endpoint, count } => ProblemKind::TooManyKeys {
                endpoint: endpoint.clone(),
                count: *count,
            },
            ProblemKind::KeySlotOutOfRange { endpoint, slot } => ProblemKind::KeySlotOutOfRange {
                endpoint: endpoint.clone(),
                slot: *slot,
            },
            ProblemKind::DuplicateKeySlot { endpoint, slot } => ProblemKind::DuplicateKeySlot {
                endpoint: endpoint.clone(),
                slot: *slot,
            },
            ProblemKind::DuplicateKeyTarget { endpoint, slots } => ProblemKind::DuplicateKeyTarget {
                endpoint: endpoint.clone(),
                slots: *slots,
            },
            ProblemKind::UnknownPartyline { endpoint, slot, target } => ProblemKind::UnknownPartyline {
                endpoint: endpoint.clone(),
                slot: *slot,
                target: target.clone(),
            },
            ProblemKind::UnknownEndpoint { endpoint, slot, target } => ProblemKind::UnknownEndpoint {
                endpoint: endpoint.clone(),
                slot: *slot,
                target: target.clone(),
            },
            ProblemKind::DirectToSelf { endpoint, slot } => ProblemKind::DirectToSelf {
                endpoint: endpoint.clone(),
                slot: *slot,
            },
            ProblemKind::UnsupportedSampleRate(rate) => ProblemKind::UnsupportedSampleRate(*rate),
            ProblemKind::PtimeNotWholeMilliseconds { ptime, sample_rate } => {
                ProblemKind::PtimeNotWholeMilliseconds { ptime: *ptime, sample_rate: *sample_rate }
            },
            ProblemKind::OneWayDirect { from, to } => ProblemKind::OneWayDirect {
                from: from.clone(),
                to: to.clone(),
            },
            ProblemKind::EmptyPartyline(p) => ProblemKind::EmptyPartyline(p.clone()),
            ProblemKind::LonelyPartyline(p) => ProblemKind::LonelyPartyline(p.clone()),
            ProblemKind::EndpointWithNoKeys(e) => ProblemKind::EndpointWithNoKeys(e.clone()),
            ProblemKind::EndpointCannotTalk(e) => ProblemKind::EndpointCannotTalk(e.clone()),
        }
    }
}

/// A validation finding, ready to show next to the offending row.
#[derive(Debug, PartialEq, Eq)]
pub struct Problem {
    pub severity: Severity,
    pub kind: ProblemKind,
    /// An explanation, with why it matters where that is not obvious.
    pub message: String,
}

/// A finding as a mathematical value.
pub struct ProblemView {
    pub severity: Severity,
    pub kind: KindView,
    pub message: Seq<char>,
}

impl View for Problem {
    type V = ProblemView;

    open spec fn view(&self) -> ProblemView {
        ProblemView { severity: self.severity, kind: self.kind@, message: self.message@ }
    }
}

impl Clone for Problem {
    fn clone(&self) -> (r: Self)
        ensures
            r == *self,
    {
        Problem {
            severity: self.severity,
            kind: self.kind.clone(),
            message: self.message.clone(),
        }
    }
}

impl Problem {
    pub fn error(kind: ProblemKind, message: String) -> (r: Self)
        ensures
            r@ == error_view(kind@, message@),
    {
        Problem { severity: Severity::Error, kind, message }
    }

    pub fn warning(kind: ProblemKind, message: String) -> (r: Self)
        ensures
            r@ == warning_view(kind@, message@),
    {
        Problem { severity: Severity::Warning, kind, message }
    }
}

pub open spec fn error_view(kind: KindView, message: Seq<char>) -> ProblemView {
    ProblemView { severity: Severity::Error, kind, message }
}

pub open spec fn warning_view(kind: KindView, message: Seq<char>) -> ProblemView {
    ProblemView { severity: Severity::Warning, kind, message }
}

pub open spec fn problems_view(problems: Seq<Problem>) -> Seq<ProblemView> {
    Seq::new(problems.len(), |i: int| problems[i]@)
}

/// What `f` finds at 0, 1 and so on below `n`, in order.
pub open spec fn gather(n: int, f: spec_fn(int) -> Seq<ProblemView>) -> Seq<ProblemView>
    decreases n,
{
    if n <= 0 {
        Seq::empty()
    } else {
        gather(n - 1, f) + f(n - 1)
    }
}

/// A finding, or none.
pub open spec fn found_if(b: bool, p: ProblemView) -> Seq<ProblemView> {
    if b {
        seq![p]
    } else {
        Seq::empty()
    }
}

// What each check looks for.

/// Whether AES67 devices can be expected to run at the rate.
pub open spec fn rate_supported(rate: u32) -> bool {
    rate == 44_100 || rate == 48_000 || rate == 96_000
}

/// Whether blocks of this many samples divide a second evenly.
pub open spec fn ptime_divides(s: SystemView) -> bool {
    s.ptime_samples != 0 && s.sample_rate % s.ptime_samples == 0
}

pub open spec fn system_findings(s: SystemView) -> Seq<ProblemView> {
    found_if(
        !rate_supported(s.sample_rate),
        error_view(
            KindView::UnsupportedSampleRate(s.sample_rate),
            "sample rate "@ + decimal(s.sample_rate as nat)
                + " is not one an AES67 device is required to support; use 48000 unless the whole system is deliberately elsewhere"@,
        ),
    ) + found_if(
        !ptime_divides(s),
        error_view(
            KindView::PtimeNotWholeMilliseconds { ptime: s.ptime_samples, sample_rate: s.sample_rate },
            "packet time of "@ + decimal(s.ptime_samples as nat) + " samples does not divide the "@ + decimal(
                s.sample_rate as nat,
            ) + " Hz sample rate evenly, so one engine block cannot be one RTP packet"@,
        ),
    )
}

/// Whether an earlier endpoint has the same id as endpoint `i`.
pub open spec fn repeats_endpoint(c: ConfigView, i: int) -> bool {
    exists|j: int| 0 <= j < i && #[trigger] c.endpoints[j].id == c.endpoints[i].id
}

/// Whether an earlier partyline has the same id as partyline `i`.
pub open spec fn repeats_partyline(c: ConfigView, i: int) -> bool {
    exists|j: int| 0 <= j < i && #[trigger] c.partylines[j].id == c.partylines[i].id
}

pub open spec fn endpoint_id_findings(c: ConfigView) -> spec_fn(int) -> Seq<ProblemView> {
    |i: int|
        found_if(
            repeats_endpoint(c, i),
            error_view(
                KindView::DuplicateEndpointId(c.endpoints[i].id),
                "two endpoints share the id '"@ + c.endpoints[i].id + "'"@,
            ),
        )
}

pub open spec fn partyline_id_findings(c: ConfigView) -> spec_fn(int) -> Seq<ProblemView> {
    |i: int|
        found_if(
            repeats_partyline(c, i),
            error_view(
                KindView::DuplicatePartylineId(c.partylines[i].id),
                "two partylines share the id '"@ + c.partylines[i].id + "'"@,
            ),
        )
}

/// Whether an earlier key of the endpoint sits in the same slot as key `k`.
pub open spec fn repeats_slot(e: EndpointView, k: int) -> bool {
    exists|j: int| 0 <= j < k && #[trigger] e.keys[j].slot == e.keys[k].slot
}

/// The first key, from `from` on and before `k`, that points where key `k` does.
pub open spec fn earlier_same_target(e: EndpointView, k: int, from: int) -> Option<int>
    decreases k - from,
{
    if from < 0 || from >= k {
        None
    } else if e.keys[from].target == e.keys[k].target {
        Some(from)
    } else {
        earlier_same_target(e, k, from + 1)
    }
}

pub open spec fn slot_findings(e: EndpointView, k: int) -> Seq<ProblemView> {
    let key = e.keys[k];
    found_if(
        key.slot >= MAX_KEYS,
        error_view(
            KindView::KeySlotOutOfRange { endpoint: e.id, slot: key.slot },
            "'"@ + e.id + "' key slot "@ + decimal(key.slot as nat) + " is outside 0.."@ + decimal(MAX_KEYS as nat),
        ),
    ) + found_if(
        repeats_slot(e, k),
        error_view(
            KindView::DuplicateKeySlot { endpoint: e.id, slot: key.slot },
            "'"@ + e.id + "' has two keys in slot "@ + decimal(key.slot as nat),
        ),
    )
}

pub open spec fn target_findings(e: EndpointView, k: int) -> Seq<ProblemView> {
    match earlier_same_target(e, k, 0) {
        Some(j) => seq![
            error_view(
                KindView::DuplicateKeyTarget { endpoint: e.id, slots: (e.keys[j].slot, e.keys[k].slot) },
                "'"@ + e.id + "' points keys "@ + decimal(e.keys[j].slot as nat) + " and "@ + decimal(
                    e.keys[k].slot as nat,
                )
                    + " at the same target; mix-minus subtracts each key's own contribution only, so this endpoint would hear itself back through the other key"@,
            ),
        ],
        None => Seq::empty(),
    }
}

pub open spec fn reference_findings(c: ConfigView, e: EndpointView, k: int) -> Seq<ProblemView> {
    let key = e.keys[k];
    match key.target {
        TargetView::Partyline(p) => found_if(
            c.partyline_at(p) is None,
            error_view(
                KindView::UnknownPartyline { endpoint: e.id, slot: key.slot, target: p },
                "'"@ + e.id + "' key "@ + decimal(key.slot as nat) + " targets unknown partyline '"@ + p + "'"@,
            ),
        ),
        TargetView::Direct(d) => if d == e.id {
            seq![
                error_view(
                    KindView::DirectToSelf { endpoint: e.id, slot: key.slot },
                    "'"@ + e.id + "' key "@ + decimal(key.slot as nat) + " is a direct connection to itself"@,
                ),
            ]
        } else {
            found_if(
                c.endpoint_at(d) is None,
                error_view(
                    KindView::UnknownEndpoint { endpoint: e.id, slot: key.slot, target: d },
                    "'"@ + e.id + "' key "@ + decimal(key.slot as nat) + " targets unknown endpoint '"@ + d + "'"@,
                ),
            )
        },
    }
}

pub open spec fn key_findings(c: ConfigView, e: EndpointView) -> spec_fn(int) -> Seq<ProblemView> {
    |k: int| slot_findings(e, k) + target_findings(e, k) + reference_findings(c, e, k)
}

pub open spec fn keys_findings(c: ConfigView) -> spec_fn(int) -> Seq<ProblemView> {
    |i: int|
        {
            let e = c.endpoints[i];
            found_if(
                e.keys.len() > MAX_KEYS,
                error_view(
                    KindView::TooManyKeys { endpoint: e.id, count: e.keys.len() },
                    "'"@ + e.id + "' has "@ + decimal(e.keys.len()) + " keys; the limit is "@ + decimal(
                        MAX_KEYS as nat,
                    ) + ", one per receivable stream"@,
                ),
            ) + gather(e.keys.len() as int, key_findings(c, e))
        }
}

/// Whether the endpoint has a direct key to the other.
pub open spec fn calls(e: EndpointView, other: Seq<char>) -> bool {
    exists|k: int| 0 <= k < e.keys.len() && #[trigger] e.keys[k].target == TargetView::Direct(other)
}

pub open spec fn one_way_findings(c: ConfigView, e: EndpointView) -> spec_fn(int) -> Seq<ProblemView> {
    |k: int|
        match e.keys[k].target {
            TargetView::Partyline(_) => Seq::empty(),
            TargetView::Direct(d) => match c.endpoint_at(d) {
                None => Seq::empty(),
                Some(o) => found_if(
                    !calls(c.endpoints[o], e.id),
                    warning_view(
                        KindView::OneWayDirect { from: e.id, to: d },
                        "'"@ + e.id + "' has a direct key to '"@ + d + "' but '"@ + d + "' has none back, so '"@ + e.id
                            + "' can hear it and cannot be heard by it"@,
                    ),
                ),
            },
        }
}

pub open spec fn reciprocity_findings(c: ConfigView) -> spec_fn(int) -> Seq<ProblemView> {
    |i: int| gather(c.endpoints[i].keys.len() as int, one_way_findings(c, c.endpoints[i]))
}

pub open spec fn member_findings(c: ConfigView) -> spec_fn(int) -> Seq<ProblemView> {
    |i: int|
        {
            let id = c.partylines[i].id;
            let n = c.members(id).len();
            if n == 0 {
                seq![
                    warning_view(
                        KindView::EmptyPartyline(id),
                        "partyline '"@ + id + "' has no endpoints assigned to it"@,
                    ),
                ]
            } else if n == 1 {
                seq![
                    warning_view(
                        KindView::LonelyPartyline(id),
                        "partyline '"@ + id + "' has one member, which will only ever hear silence"@,
                    ),
                ]
            } else {
                Seq::empty()
            }
        }
}

/// Whether some key of the endpoint can talk.
pub open spec fn has_talk_key(e: EndpointView) -> bool {
    exists|k: int| 0 <= k < e.keys.len() && #[trigger] e.keys[k].talk_mode != TalkMode::ListenOnly
}

pub open spec fn voice_findings(c: ConfigView) -> spec_fn(int) -> Seq<ProblemView> {
    |i: int|
        {
            let e = c.endpoints[i];
            if e.keys.len() == 0 {
                seq![
                    warning_view(
                        KindView::EndpointWithNoKeys(e.id),
                        "'"@ + e.id + "' has no keys, so it is connected to nothing"@,
                    ),
                ]
            } else {
                found_if(
                    !has_talk_key(e),
                    warning_view(
                        KindView::EndpointCannotTalk(e.id),
                        "'"@ + e.id + "' has only listen-only keys and can never be heard"@,
                    ),
                )
            }
        }
}

/// Every finding, check by check.
pub open spec fn findings(c: ConfigView) -> Seq<ProblemView> {
    let endpoints = c.endpoints.len() as int;
    let partylines = c.partylines.len() as int;
    system_findings(c.system) + gather(endpoints, endpoint_id_findings(c)) + gather(
        partylines,
        partyline_id_findings(c),
    ) + gather(endpoints, keys_findings(c)) + gather(endpoints, reciprocity_findings(c)) + gather(
        partylines,
        member_findings(c),
    ) + gather(endpoints, voice_findings(c))
}

pub open spec fn is_error() -> spec_fn(ProblemView) -> bool {
    |p: ProblemView| p.severity == Severity::Error
}

pub open spec fn is_warning() -> spec_fn(ProblemView) -> bool {
    |p: ProblemView| p.severity == Severity::Warning
}

/// The errors among all findings, in order.
pub open spec fn errors(c: ConfigView) -> Seq<ProblemView> {
    findings(c).filter(is_error())
}

/// Every finding, errors before warnings, each in the order of the checks.
pub open spec fn ranked_findings(c: ConfigView) -> Seq<ProblemView> {
    findings(c).filter(is_error()) + findings(c).filter(is_warning())
}

} // verus!
