//! What each finding means, and when a configuration is valid.

use vstd::prelude::*;

use crate::config::findings::{
    calls, earlier_same_target, endpoint_id_findings, error_view, errors, findings, found_if, gather, has_talk_key,
    is_error, is_warning, key_findings, keys_findings, member_findings, one_way_findings, partyline_id_findings,
    problems_view, ptime_divides, ranked_findings, rate_supported, reciprocity_findings, reference_findings,
    repeats_endpoint, repeats_partyline, repeats_slot, slot_findings, system_findings, target_findings,
    voice_findings, warning_view, KindView, Problem, ProblemView,
};
use crate::config::model::{
    lemma_endpoint_position, lemma_partyline_position, Config, ConfigView, EndpointView, TalkMode, TargetView,
    MAX_KEYS,
};
use crate::config::model_laws::{is_on_line, lemma_members};
use crate::lists::lemma_filter_positions;
use crate::text::decimal;

verus! {

/// Whether the configuration has an endpoint of this name.
pub open spec fn is_endpoint(c: ConfigView, id: Seq<char>) -> bool {
    exists|i: int| 0 <= i < c.endpoints.len() && (#[trigger] c.endpoints[i]).id == id
}

/// Whether the configuration has a partyline of this name.
pub open spec fn is_partyline(c: ConfigView, id: Seq<char>) -> bool {
    exists|i: int| 0 <= i < c.partylines.len() && (#[trigger] c.partylines[i]).id == id
}

/// Whether the configuration has a key `k` on an endpoint `i` of this name.
pub open spec fn is_key_of(c: ConfigView, i: int, k: int, id: Seq<char>) -> bool {
    0 <= i < c.endpoints.len() && 0 <= k < c.endpoints[i].keys.len() && c.endpoints[i].id == id
}

/// Whether a configuration has this wrong with it.
pub open spec fn wrong(c: ConfigView, kind: KindView) -> bool {
    match kind {
        KindView::UnsupportedSampleRate(rate) => rate == c.system.sample_rate && rate != 44100 && rate != 48000 && rate
            != 96000,
        KindView::PtimeNotWholeMilliseconds { ptime, sample_rate } => ptime == c.system.ptime_samples && sample_rate
            == c.system.sample_rate && (ptime == 0 || sample_rate % ptime != 0),
        KindView::DuplicateEndpointId(id) => exists|i: int, j: int|
            0 <= i < j < c.endpoints.len() && (#[trigger] c.endpoints[i]).id == id && (#[trigger] c.endpoints[j]).id
                == id,
        KindView::DuplicatePartylineId(id) => exists|i: int, j: int|
            0 <= i < j < c.partylines.len() && (#[trigger] c.partylines[i]).id == id && (#[trigger] c.partylines[j]).id
                == id,
        KindView::TooManyKeys { endpoint, count } => count > 10 && exists|i: int|
            0 <= i < c.endpoints.len() && (#[trigger] c.endpoints[i]).id == endpoint && c.endpoints[i].keys.len()
                == count,
        KindView::KeySlotOutOfRange { endpoint, slot } => slot >= 10 && exists|i: int, k: int| #[trigger]
            is_key_of(c, i, k, endpoint) && c.endpoints[i].keys[k].slot == slot,
        KindView::DuplicateKeySlot { endpoint, slot } => exists|i: int, j: int, k: int| #[trigger]
            is_key_of(c, i, j, endpoint) && #[trigger] is_key_of(c, i, k, endpoint) && j < k
                && c.endpoints[i].keys[j].slot == slot && c.endpoints[i].keys[k].slot == slot,
        KindView::DuplicateKeyTarget { endpoint, slots } => exists|i: int, j: int, k: int| #[trigger]
            is_key_of(c, i, j, endpoint) && #[trigger] is_key_of(c, i, k, endpoint) && j < k
                && c.endpoints[i].keys[j].target == c.endpoints[i].keys[k].target && slots
                == (c.endpoints[i].keys[j].slot, c.endpoints[i].keys[k].slot) && first_with_target(
                c.endpoints[i],
                j,
            ),
        KindView::UnknownPartyline { endpoint, slot, target } => !is_partyline(c, target) && exists|i: int, k: int|
            #[trigger]
            is_key_of(c, i, k, endpoint) && c.endpoints[i].keys[k].slot == slot && c.endpoints[i].keys[k].target
                == TargetView::Partyline(target),
        KindView::UnknownEndpoint { endpoint, slot, target } => !is_endpoint(c, target) && exists|i: int, k: int|
            #[trigger]
            is_key_of(c, i, k, endpoint) && c.endpoints[i].keys[k].slot == slot && c.endpoints[i].keys[k].target
                == TargetView::Direct(target),
        KindView::DirectToSelf { endpoint, slot } => exists|i: int, k: int| #[trigger]
            is_key_of(c, i, k, endpoint) && c.endpoints[i].keys[k].slot == slot && c.endpoints[i].keys[k].target
                == TargetView::Direct(endpoint),
        KindView::OneWayDirect { from, to } => points_at(c, from, to) && exists|o: int|
            first_endpoint(c, o, to) && forall|k: int|
                0 <= k < c.endpoints[o].keys.len() ==> (#[trigger] c.endpoints[o].keys[k]).target
                    != TargetView::Direct(from),
        KindView::EmptyPartyline(id) => is_partyline(c, id) && forall|i: int, k: int|
            !(#[trigger] is_on_line(c, i, k, id)),
        KindView::LonelyPartyline(id) => is_partyline(c, id) && exists|i: int, k: int| #[trigger] only_on_line(c, i, k, id),
        KindView::EndpointWithNoKeys(id) => exists|i: int|
            0 <= i < c.endpoints.len() && (#[trigger] c.endpoints[i]).id == id && c.endpoints[i].keys.len() == 0,
        KindView::EndpointCannotTalk(id) => exists|i: int|
            0 <= i < c.endpoints.len() && (#[trigger] c.endpoints[i]).id == id && c.endpoints[i].keys.len() > 0
                && forall|k: int|
                0 <= k < c.endpoints[i].keys.len() ==> (#[trigger] c.endpoints[i].keys[k]).talk_mode is ListenOnly,
    }
}

/// Whether no earlier key of the endpoint points where key `j` does.
pub open spec fn first_with_target(e: EndpointView, j: int) -> bool {
    forall|l: int| 0 <= l < j ==> (#[trigger] e.keys[l]).target != e.keys[j].target
}

/// Whether endpoint `o` is the first of this name.
pub open spec fn first_endpoint(c: ConfigView, o: int, id: Seq<char>) -> bool {
    0 <= o < c.endpoints.len() && c.endpoints[o].id == id && forall|l: int|
        0 <= l < o ==> (#[trigger] c.endpoints[l]).id != id
}

/// Whether a key of an endpoint of one name points at an endpoint of another.
pub open spec fn points_at(c: ConfigView, from: Seq<char>, to: Seq<char>) -> bool {
    exists|i: int, k: int| #[trigger] is_key_of(c, i, k, from) && c.endpoints[i].keys[k].target == TargetView::Direct(to)
}

/// Whether a key is the only one on a partyline.
pub open spec fn only_on_line(c: ConfigView, i: int, k: int, line: Seq<char>) -> bool {
    is_on_line(c, i, k, line) && forall|a: int, b: int| #[trigger] is_on_line(c, a, b, line) ==> a == i && b == k
}

/// Whether a problem keeps the routing table from being built; the others only look wrong.
pub open spec fn fatal(kind: KindView) -> bool {
    !(kind is OneWayDirect || kind is EmptyPartyline || kind is LonelyPartyline || kind is EndpointWithNoKeys
        || kind is EndpointCannotTalk)
}

/// What is said of a problem.
pub open spec fn says(kind: KindView) -> Seq<char> {
    match kind {
        KindView::UnsupportedSampleRate(rate) => "sample rate "@ + decimal(rate as nat)
            + " is not one an AES67 device is required to support; use 48000 unless the whole system is deliberately elsewhere"@,
        KindView::PtimeNotWholeMilliseconds { ptime, sample_rate } => "packet time of "@ + decimal(ptime as nat)
            + " samples does not divide the "@ + decimal(sample_rate as nat)
            + " Hz sample rate evenly, so one engine block cannot be one RTP packet"@,
        KindView::DuplicateEndpointId(id) => "two endpoints share the id '"@ + id + "'"@,
        KindView::DuplicatePartylineId(id) => "two partylines share the id '"@ + id + "'"@,
        KindView::TooManyKeys { endpoint, count } => "'"@ + endpoint + "' has "@ + decimal(count)
            + " keys; the limit is "@ + decimal(10) + ", one per receivable stream"@,
        KindView::KeySlotOutOfRange { endpoint, slot } => "'"@ + endpoint + "' key slot "@ + decimal(slot as nat)
            + " is outside 0.."@ + decimal(10),
        KindView::DuplicateKeySlot { endpoint, slot } => "'"@ + endpoint + "' has two keys in slot "@ + decimal(
            slot as nat,
        ),
        KindView::DuplicateKeyTarget { endpoint, slots } => "'"@ + endpoint + "' points keys "@ + decimal(
            slots.0 as nat,
        ) + " and "@ + decimal(slots.1 as nat)
            + " at the same target; mix-minus subtracts each key's own contribution only, so this endpoint would hear itself back through the other key"@,
        KindView::UnknownPartyline { endpoint, slot, target } => "'"@ + endpoint + "' key "@ + decimal(slot as nat)
            + " targets unknown partyline '"@ + target + "'"@,
        KindView::UnknownEndpoint { endpoint, slot, target } => "'"@ + endpoint + "' key "@ + decimal(slot as nat)
            + " targets unknown endpoint '"@ + target + "'"@,
        KindView::DirectToSelf { endpoint, slot } => "'"@ + endpoint + "' key "@ + decimal(slot as nat)
            + " is a direct connection to itself"@,
        KindView::OneWayDirect { from, to } => "'"@ + from + "' has a direct key to '"@ + to + "' but '"@ + to
            + "' has none back, so '"@ + from + "' can hear it and cannot be heard by it"@,
        KindView::EmptyPartyline(id) => "partyline '"@ + id + "' has no endpoints assigned to it"@,
        KindView::LonelyPartyline(id) => "partyline '"@ + id + "' has one member, which will only ever hear silence"@,
        KindView::EndpointWithNoKeys(id) => "'"@ + id + "' has no keys, so it is connected to nothing"@,
        KindView::EndpointCannotTalk(id) => "'"@ + id + "' has only listen-only keys and can never be heard"@,
    }
}

// Findings, by kind.

spec fn shows(s: Seq<ProblemView>, kind: KindView) -> bool {
    exists|i: int| 0 <= i < s.len() && (#[trigger] s[i]).kind == kind
}

/// Whether every finding is as grave as its kind is, and says what its kind means.
spec fn graded(s: Seq<ProblemView>) -> bool {
    forall|i: int| 0 <= i < s.len() ==> (((#[trigger] s[i]).severity is Error) <==> fatal(s[i].kind)) && s[i].message
        == says(s[i].kind)
}

proof fn lemma_add(a: Seq<ProblemView>, b: Seq<ProblemView>, kind: KindView)
    ensures
        shows(a + b, kind) <==> shows(a, kind) || shows(b, kind),
        graded(a) && graded(b) ==> graded(a + b),
{
    let s = a + b;
    if shows(s, kind) {
        let i = choose|i: int| 0 <= i < s.len() && (#[trigger] s[i]).kind == kind;
        if i < a.len() {
            assert(a[i].kind == kind);
        } else {
            assert(b[i - a.len()].kind == kind);
        }
    }
    if shows(a, kind) {
        let i = choose|i: int| 0 <= i < a.len() && (#[trigger] a[i]).kind == kind;
        assert(s[i].kind == kind);
    }
    if shows(b, kind) {
        let i = choose|i: int| 0 <= i < b.len() && (#[trigger] b[i]).kind == kind;
        assert(s[a.len() + i].kind == kind);
    }
}

proof fn lemma_one(p: ProblemView, kind: KindView)
    ensures
        shows(seq![p], kind) <==> p.kind == kind,
        !shows(Seq::<ProblemView>::empty(), kind),
        graded(Seq::<ProblemView>::empty()),
        ((p.severity is Error) <==> fatal(p.kind)) && p.message == says(p.kind) ==> graded(seq![p]),
{
    assert(seq![p][0] == p);
}

proof fn lemma_found(b: bool, p: ProblemView, kind: KindView)
    ensures
        shows(found_if(b, p), kind) <==> b && p.kind == kind,
        ((p.severity is Error) <==> fatal(p.kind)) && p.message == says(p.kind) ==> graded(found_if(b, p)),
{
    lemma_one(p, kind);
}

proof fn lemma_gather(n: int, f: spec_fn(int) -> Seq<ProblemView>, kind: KindView)
    ensures
        shows(gather(n, f), kind) <==> exists|i: int| 0 <= i < n && shows(#[trigger] f(i), kind),
        (forall|i: int| 0 <= i < n ==> graded(#[trigger] f(i))) ==> graded(gather(n, f)),
    decreases n,
{
    if n > 0 {
        lemma_gather(n - 1, f, kind);
        lemma_add(gather(n - 1, f), f(n - 1), kind);
    }
}

proof fn lemma_earlier(e: EndpointView, k: int, from: int)
    requires
        0 <= from,
    ensures
        match earlier_same_target(e, k, from) {
            Some(j) => from <= j < k && e.keys[j].target == e.keys[k].target && forall|l: int|
                from <= l < j ==> (#[trigger] e.keys[l]).target != e.keys[k].target,
            None => forall|l: int| from <= l < k ==> (#[trigger] e.keys[l]).target != e.keys[k].target,
        },
    decreases k - from,
{
    if from < k && e.keys[from].target != e.keys[k].target {
        lemma_earlier(e, k, from + 1);
    }
}

/// What is wrong with one key.
pub open spec fn key_wrong(c: ConfigView, e: EndpointView, k: int, kind: KindView) -> bool {
    let key = e.keys[k];
    match kind {
        KindView::KeySlotOutOfRange { endpoint, slot } => endpoint == e.id && slot == key.slot && slot >= 10,
        KindView::DuplicateKeySlot { endpoint, slot } => endpoint == e.id && slot == key.slot && exists|j: int|
            0 <= j < k && (#[trigger] e.keys[j]).slot == slot,
        KindView::DuplicateKeyTarget { endpoint, slots } => endpoint == e.id && slots.1 == key.slot && exists|j: int|
            0 <= j < k && (#[trigger] e.keys[j]).target == key.target && e.keys[j].slot == slots.0
                && first_with_target(e, j),
        KindView::UnknownPartyline { endpoint, slot, target } => endpoint == e.id && slot == key.slot && key.target
            == TargetView::Partyline(target) && !is_partyline(c, target),
        KindView::UnknownEndpoint { endpoint, slot, target } => endpoint == e.id && slot == key.slot && key.target
            == TargetView::Direct(target) && target != e.id && !is_endpoint(c, target),
        KindView::DirectToSelf { endpoint, slot } => endpoint == e.id && slot == key.slot && key.target
            == TargetView::Direct(e.id),
        _ => false,
    }
}

proof fn lemma_names(c: ConfigView, id: Seq<char>)
    ensures
        c.endpoint_at(id) is Some <==> is_endpoint(c, id),
        c.partyline_at(id) is Some <==> is_partyline(c, id),
        c.endpoint_at(id) matches Some(o) ==> first_endpoint(c, o, id),
{
    lemma_endpoint_position(c.endpoints, id, 0);
    lemma_partyline_position(c.partylines, id, 0);
    if let Some(i) = c.endpoint_at(id) {
        assert(c.endpoints[i].id == id);
    }
    if let Some(i) = c.partyline_at(id) {
        assert(c.partylines[i].id == id);
    }
}

proof fn lemma_key(c: ConfigView, e: EndpointView, k: int, kind: KindView)
    requires
        0 <= k < e.keys.len(),
    ensures
        shows(key_findings(c, e)(k), kind) <==> key_wrong(c, e, k, kind),
        graded(key_findings(c, e)(k)),
{
    let key = e.keys[k];
    let (a, b, r) = (slot_findings(e, k), target_findings(e, k), reference_findings(c, e, k));
    lemma_add(a, b, kind);
    lemma_add(a + b, r, kind);
    let range = error_view(
        KindView::KeySlotOutOfRange { endpoint: e.id, slot: key.slot },
        "'"@ + e.id + "' key slot "@ + decimal(key.slot as nat) + " is outside 0.."@ + decimal(
            MAX_KEYS as nat,
        ),
    );
    let twice = error_view(
        KindView::DuplicateKeySlot { endpoint: e.id, slot: key.slot },
        "'"@ + e.id + "' has two keys in slot "@ + decimal(key.slot as nat),
    );
    let out = key.slot >= MAX_KEYS;
    lemma_found(out, range, kind);
    lemma_found(repeats_slot(e, k), twice, kind);
    lemma_add(found_if(out, range), found_if(repeats_slot(e, k), twice), kind);
    lemma_earlier(e, k, 0);
    if b.len() > 0 {
        lemma_one(b[0], kind);
        assert(b =~= seq![b[0]]);
    } else {
        lemma_one(range, kind);
        assert(b =~= Seq::<ProblemView>::empty());
    }
    if r.len() > 0 {
        lemma_one(r[0], kind);
        assert(r =~= seq![r[0]]);
    } else {
        lemma_one(range, kind);
        assert(r =~= Seq::<ProblemView>::empty());
    }
    match key.target {
        TargetView::Partyline(p) => {
            lemma_names(c, p);
        },
        TargetView::Direct(d) => {
            lemma_names(c, d);
        },
    }
    if let KindView::DuplicateKeyTarget { endpoint, slots } = kind {
        if let Some(j) = earlier_same_target(e, k, 0) {
            assert(first_with_target(e, j));
            if key_wrong(c, e, k, kind) {
                let l = choose|l: int|
                    0 <= l < k && (#[trigger] e.keys[l]).target == key.target && e.keys[l].slot == slots.0
                        && first_with_target(e, l);
                if l < j {
                    assert(e.keys[l].target != e.keys[k].target);
                } else if j < l {
                    assert(e.keys[j].target != e.keys[l].target);
                }
            }
        }
    }
}

/// What is wrong with one endpoint's keys.
spec fn keys_wrong(c: ConfigView, e: EndpointView, kind: KindView) -> bool {
    ||| kind matches KindView::TooManyKeys { endpoint, count } && endpoint == e.id && count == e.keys.len() && count > 10
    ||| exists|k: int| 0 <= k < e.keys.len() && #[trigger] key_wrong(c, e, k, kind)
}

proof fn lemma_keys(c: ConfigView, i: int, kind: KindView)
    requires
        0 <= i < c.endpoints.len(),
    ensures
        shows(keys_findings(c)(i), kind) <==> keys_wrong(c, c.endpoints[i], kind),
        graded(keys_findings(c)(i)),
{
    let e = c.endpoints[i];
    let n = e.keys.len() as int;
    let f = key_findings(c, e);
    let many = error_view(
        KindView::TooManyKeys { endpoint: e.id, count: e.keys.len() },
        "'"@ + e.id + "' has "@ + decimal(e.keys.len()) + " keys; the limit is "@ + decimal(
            MAX_KEYS as nat,
        ) + ", one per receivable stream"@,
    );
    let over = e.keys.len() > MAX_KEYS;
    lemma_found(over, many, kind);
    lemma_gather(n, f, kind);
    lemma_add(found_if(over, many), gather(n, f), kind);
    assert forall|k: int| 0 <= k < n implies graded(#[trigger] f(k)) && (shows(f(k), kind) <==> key_wrong(c, e, k, kind)) by {
        lemma_key(c, e, k, kind);
    }
    if exists|k: int| 0 <= k < n && #[trigger] key_wrong(c, e, k, kind) {
        let k = choose|k: int| 0 <= k < n && #[trigger] key_wrong(c, e, k, kind);
        assert(shows(f(k), kind));
    }
    if exists|k: int| 0 <= k < n && shows(#[trigger] f(k), kind) {
        let k = choose|k: int| 0 <= k < n && shows(#[trigger] f(k), kind);
        assert(key_wrong(c, e, k, kind));
    }
}

/// What one key lacks an answer to.
pub open spec fn one_way(c: ConfigView, e: EndpointView, k: int, kind: KindView) -> bool {
    kind matches KindView::OneWayDirect { from, to } && from == e.id && e.keys[k].target == TargetView::Direct(to)
        && exists|o: int|
        first_endpoint(c, o, to) && forall|l: int|
            0 <= l < c.endpoints[o].keys.len() ==> (#[trigger] c.endpoints[o].keys[l]).target
                != TargetView::Direct(from)
}

proof fn lemma_one_way(c: ConfigView, e: EndpointView, k: int, kind: KindView)
    requires
        0 <= k < e.keys.len(),
    ensures
        shows(one_way_findings(c, e)(k), kind) <==> one_way(c, e, k, kind),
        graded(one_way_findings(c, e)(k)),
{
    let r = one_way_findings(c, e)(k);
    let any = warning_view(KindView::EmptyPartyline(e.id), e.id);
    if r.len() > 0 {
        lemma_one(r[0], kind);
        assert(r =~= seq![r[0]]);
    } else {
        lemma_one(any, kind);
        assert(r =~= Seq::<ProblemView>::empty());
    }
    if let TargetView::Direct(d) = e.keys[k].target {
        lemma_names(c, d);
        if let Some(o) = c.endpoint_at(d) {
            if calls(c.endpoints[o], e.id) {
                let l = choose|l: int|
                    0 <= l < c.endpoints[o].keys.len() && #[trigger] c.endpoints[o].keys[l].target
                        == TargetView::Direct(e.id);
                if one_way(c, e, k, kind) {
                    let p = choose|p: int|
                        first_endpoint(c, p, d) && forall|l: int|
                            0 <= l < c.endpoints[p].keys.len() ==> (#[trigger] c.endpoints[p].keys[l]).target
                                != TargetView::Direct(e.id);
                    if p < o {
                        assert(c.endpoints[p].id != d);
                    } else if o < p {
                        assert(c.endpoints[o].id != d);
                    }
                    assert(c.endpoints[p].keys[l].target != TargetView::Direct(e.id));
                }
            } else {
                assert forall|l: int| 0 <= l < c.endpoints[o].keys.len() implies (#[trigger] c.endpoints[o].keys[l]).target
                    != TargetView::Direct(e.id) by {}
                assert(first_endpoint(c, o, d));
            }
        } else {
            if one_way(c, e, k, kind) {
                let p = choose|p: int|
                    first_endpoint(c, p, d) && forall|l: int|
                        0 <= l < c.endpoints[p].keys.len() ==> (#[trigger] c.endpoints[p].keys[l]).target
                            != TargetView::Direct(e.id);
                assert(c.endpoints[p].id == d);
            }
        }
    }
}

proof fn lemma_reciprocity(c: ConfigView, i: int, kind: KindView)
    requires
        0 <= i < c.endpoints.len(),
    ensures
        shows(reciprocity_findings(c)(i), kind) <==> exists|k: int|
            0 <= k < c.endpoints[i].keys.len() && #[trigger] one_way(c, c.endpoints[i], k, kind),
        graded(reciprocity_findings(c)(i)),
{
    let e = c.endpoints[i];
    let n = e.keys.len() as int;
    let f = one_way_findings(c, e);
    lemma_gather(n, f, kind);
    assert forall|k: int| 0 <= k < n implies graded(#[trigger] f(k)) && (shows(f(k), kind) <==> one_way(c, e, k, kind)) by {
        lemma_one_way(c, e, k, kind);
    }
    if exists|k: int| 0 <= k < n && #[trigger] one_way(c, e, k, kind) {
        let k = choose|k: int| 0 <= k < n && #[trigger] one_way(c, e, k, kind);
        assert(shows(f(k), kind));
    }
    if exists|k: int| 0 <= k < n && shows(#[trigger] f(k), kind) {
        let k = choose|k: int| 0 <= k < n && shows(#[trigger] f(k), kind);
        assert(one_way(c, e, k, kind));
    }
}

/// What is wrong with one partyline's members.
pub open spec fn line_wrong(c: ConfigView, id: Seq<char>, kind: KindView) -> bool {
    ||| kind == KindView::EmptyPartyline(id) && forall|i: int, k: int| !(#[trigger] is_on_line(c, i, k, id))
    ||| kind == KindView::LonelyPartyline(id) && exists|i: int, k: int| #[trigger] only_on_line(c, i, k, id)
}

proof fn lemma_line(c: ConfigView, p: int, kind: KindView)
    requires
        0 <= p < c.partylines.len(),
    ensures
        shows(member_findings(c)(p), kind) <==> line_wrong(c, c.partylines[p].id, kind),
        graded(member_findings(c)(p)),
{
    let id = c.partylines[p].id;
    let n = c.endpoints.len() as int;
    let at = lemma_members(c, id, n);
    assert(c.endpoints.take(n) =~= c.endpoints);
    assert(c.members(id).len() == at.len());
    let r = member_findings(c)(p);
    let any = warning_view(KindView::EmptyPartyline(id), id);
    if r.len() > 0 {
        lemma_one(r[0], kind);
        assert(r =~= seq![r[0]]);
    } else {
        lemma_one(any, kind);
        assert(r =~= Seq::<ProblemView>::empty());
    }
    if at.len() == 0 {
        assert forall|i: int, k: int| !(#[trigger] is_on_line(c, i, k, id)) by {
            if is_on_line(c, i, k, id) {
                assert(at.contains((i, k)));
            }
        }
        assert forall|i: int, k: int| !(#[trigger] only_on_line(c, i, k, id)) by {}
    } else {
        let (i0, k0) = at[0];
        assert(is_on_line(c, i0, k0, id));
        if at.len() == 1 {
            assert forall|a: int, b: int| #[trigger] is_on_line(c, a, b, id) implies a == i0 && b == k0 by {
                assert(at.contains((a, b)));
            }
            assert(only_on_line(c, i0, k0, id));
        } else {
            assert forall|i: int, k: int| !(#[trigger] only_on_line(c, i, k, id)) by {
                if only_on_line(c, i, k, id) {
                    assert(is_on_line(c, at[0].0, at[0].1, id));
                    assert(is_on_line(c, at[1].0, at[1].1, id));
                    assert(at[0] == at[1]);
                }
            }
        }
    }
}

/// What is wrong with one endpoint's voice.
pub open spec fn voice_wrong(e: EndpointView, kind: KindView) -> bool {
    ||| kind == KindView::EndpointWithNoKeys(e.id) && e.keys.len() == 0
    ||| kind == KindView::EndpointCannotTalk(e.id) && e.keys.len() > 0 && forall|k: int|
        0 <= k < e.keys.len() ==> (#[trigger] e.keys[k]).talk_mode is ListenOnly
}

proof fn lemma_voice(c: ConfigView, i: int, kind: KindView)
    requires
        0 <= i < c.endpoints.len(),
    ensures
        shows(voice_findings(c)(i), kind) <==> voice_wrong(c.endpoints[i], kind),
        graded(voice_findings(c)(i)),
{
    let e = c.endpoints[i];
    let r = voice_findings(c)(i);
    let any = warning_view(KindView::EmptyPartyline(e.id), e.id);
    if r.len() > 0 {
        lemma_one(r[0], kind);
        assert(r =~= seq![r[0]]);
    } else {
        lemma_one(any, kind);
        assert(r =~= Seq::<ProblemView>::empty());
    }
    if has_talk_key(e) {
        let k = choose|k: int| 0 <= k < e.keys.len() && #[trigger] e.keys[k].talk_mode != TalkMode::ListenOnly;
        assert(!(e.keys[k].talk_mode is ListenOnly));
    }
}

proof fn lemma_ids(c: ConfigView, i: int, kind: KindView)
    ensures
        shows(endpoint_id_findings(c)(i), kind) <==> repeats_endpoint(c, i) && kind == KindView::DuplicateEndpointId(
            c.endpoints[i].id,
        ),
        shows(partyline_id_findings(c)(i), kind) <==> repeats_partyline(c, i) && kind == KindView::DuplicatePartylineId(
            c.partylines[i].id,
        ),
        graded(endpoint_id_findings(c)(i)),
        graded(partyline_id_findings(c)(i)),
{
    lemma_found(
        repeats_endpoint(c, i),
        error_view(
            KindView::DuplicateEndpointId(c.endpoints[i].id),
            "two endpoints share the id '"@ + c.endpoints[i].id + "'"@,
        ),
        kind,
    );
    lemma_found(
        repeats_partyline(c, i),
        error_view(
            KindView::DuplicatePartylineId(c.partylines[i].id),
            "two partylines share the id '"@ + c.partylines[i].id + "'"@,
        ),
        kind,
    );
}

proof fn lemma_system(c: ConfigView, kind: KindView)
    ensures
        shows(system_findings(c.system), kind) <==> (kind is UnsupportedSampleRate || kind is PtimeNotWholeMilliseconds)
            && wrong(c, kind),
        graded(system_findings(c.system)),
{
    let s = c.system;
    let all = system_findings(s);
    let rate = !rate_supported(s.sample_rate);
    let ptime = !ptime_divides(s);
    let p = error_view(
        KindView::UnsupportedSampleRate(s.sample_rate),
        "sample rate "@ + decimal(s.sample_rate as nat)
            + " is not one an AES67 device is required to support; use 48000 unless the whole system is deliberately elsewhere"@,
    );
    let q = error_view(
        KindView::PtimeNotWholeMilliseconds { ptime: s.ptime_samples, sample_rate: s.sample_rate },
        "packet time of "@ + decimal(s.ptime_samples as nat) + " samples does not divide the "@ + decimal(
            s.sample_rate as nat,
        ) + " Hz sample rate evenly, so one engine block cannot be one RTP packet"@,
    );
    lemma_found(rate, p, kind);
    lemma_found(ptime, q, kind);
    lemma_add(found_if(rate, p), found_if(ptime, q), kind);
}

proof fn lemma_groups(c: ConfigView, kind: KindView)
    ensures
        graded(findings(c)),
        shows(findings(c), kind) <==> {
            ||| (kind is UnsupportedSampleRate || kind is PtimeNotWholeMilliseconds) && wrong(c, kind)
            ||| exists|i: int|
                0 <= i < c.endpoints.len() && kind == KindView::DuplicateEndpointId((#[trigger] c.endpoints[i]).id)
                    && repeats_endpoint(c, i)
            ||| exists|i: int|
                0 <= i < c.partylines.len() && kind == KindView::DuplicatePartylineId((#[trigger] c.partylines[i]).id)
                    && repeats_partyline(c, i)
            ||| exists|i: int| 0 <= i < c.endpoints.len() && keys_wrong(c, #[trigger] c.endpoints[i], kind)
            ||| exists|i: int, k: int|
                0 <= i < c.endpoints.len() && 0 <= k < c.endpoints[i].keys.len() && #[trigger] one_way(
                    c,
                    c.endpoints[i],
                    k,
                    kind,
                )
            ||| exists|p: int| 0 <= p < c.partylines.len() && line_wrong(c, (#[trigger] c.partylines[p]).id, kind)
            ||| exists|i: int| 0 <= i < c.endpoints.len() && voice_wrong(#[trigger] c.endpoints[i], kind)
        },
{
    let n = c.endpoints.len() as int;
    let m = c.partylines.len() as int;
    let (f1, f2, f3, f4, f5, f6) = (
        endpoint_id_findings(c),
        partyline_id_findings(c),
        keys_findings(c),
        reciprocity_findings(c),
        member_findings(c),
        voice_findings(c),
    );
    let s0 = system_findings(c.system);
    let s1 = s0 + gather(n, f1);
    let s2 = s1 + gather(m, f2);
    let s3 = s2 + gather(n, f3);
    let s4 = s3 + gather(n, f4);
    let s5 = s4 + gather(m, f5);
    lemma_system(c, kind);
    lemma_gather(n, f1, kind);
    lemma_gather(m, f2, kind);
    lemma_gather(n, f3, kind);
    lemma_gather(n, f4, kind);
    lemma_gather(m, f5, kind);
    lemma_gather(n, f6, kind);
    lemma_add(s0, gather(n, f1), kind);
    lemma_add(s1, gather(m, f2), kind);
    lemma_add(s2, gather(n, f3), kind);
    lemma_add(s3, gather(n, f4), kind);
    lemma_add(s4, gather(m, f5), kind);
    lemma_add(s5, gather(n, f6), kind);
    assert(findings(c) == s5 + gather(n, f6));
    assert forall|i: int| 0 <= i < n implies graded(#[trigger] f1(i)) && (shows(f1(i), kind) <==> kind
        == KindView::DuplicateEndpointId(c.endpoints[i].id) && repeats_endpoint(c, i)) by {
        lemma_ids(c, i, kind);
    }
    assert forall|i: int| 0 <= i < m implies graded(#[trigger] f2(i)) && (shows(f2(i), kind) <==> kind
        == KindView::DuplicatePartylineId(c.partylines[i].id) && repeats_partyline(c, i)) by {
        lemma_ids(c, i, kind);
    }
    assert forall|i: int| 0 <= i < n implies graded(#[trigger] f3(i)) && (shows(f3(i), kind) <==> keys_wrong(
        c,
        c.endpoints[i],
        kind,
    )) by {
        lemma_keys(c, i, kind);
    }
    assert forall|i: int| 0 <= i < n implies graded(#[trigger] f4(i)) && (shows(f4(i), kind) <==> exists|k: int|
        0 <= k < c.endpoints[i].keys.len() && #[trigger] one_way(c, c.endpoints[i], k, kind)) by {
        lemma_reciprocity(c, i, kind);
    }
    assert forall|i: int| 0 <= i < m implies graded(#[trigger] f5(i)) && (shows(f5(i), kind) <==> line_wrong(
        c,
        c.partylines[i].id,
        kind,
    )) by {
        lemma_line(c, i, kind);
    }
    assert forall|i: int| 0 <= i < n implies graded(#[trigger] f6(i)) && (shows(f6(i), kind) <==> voice_wrong(
        c.endpoints[i],
        kind,
    )) by {
        lemma_voice(c, i, kind);
    }
    assert((exists|i: int| 0 <= i < n && shows(#[trigger] f1(i), kind)) <==> (exists|i: int|
        0 <= i < n && kind == KindView::DuplicateEndpointId((#[trigger] c.endpoints[i]).id) && repeats_endpoint(c, i))) by {
        if exists|i: int|
            0 <= i < n && kind == KindView::DuplicateEndpointId((#[trigger] c.endpoints[i]).id) && repeats_endpoint(c, i) {
            let i = choose|i: int|
                0 <= i < n && kind == KindView::DuplicateEndpointId((#[trigger] c.endpoints[i]).id) && repeats_endpoint(
                    c,
                    i,
                );
            assert(shows(f1(i), kind));
        }
    }
    assert((exists|i: int| 0 <= i < m && shows(#[trigger] f2(i), kind)) <==> (exists|i: int|
        0 <= i < m && kind == KindView::DuplicatePartylineId((#[trigger] c.partylines[i]).id) && repeats_partyline(
            c,
            i,
        ))) by {
        if exists|i: int|
            0 <= i < m && kind == KindView::DuplicatePartylineId((#[trigger] c.partylines[i]).id) && repeats_partyline(
                c,
                i,
            ) {
            let i = choose|i: int|
                0 <= i < m && kind == KindView::DuplicatePartylineId((#[trigger] c.partylines[i]).id)
                    && repeats_partyline(c, i);
            assert(shows(f2(i), kind));
        }
    }
    assert((exists|i: int| 0 <= i < n && shows(#[trigger] f3(i), kind)) <==> (exists|i: int|
        0 <= i < n && keys_wrong(c, #[trigger] c.endpoints[i], kind))) by {
        if exists|i: int| 0 <= i < n && keys_wrong(c, #[trigger] c.endpoints[i], kind) {
            let i = choose|i: int| 0 <= i < n && keys_wrong(c, #[trigger] c.endpoints[i], kind);
            assert(shows(f3(i), kind));
        }
    }
    assert((exists|i: int| 0 <= i < n && shows(#[trigger] f4(i), kind)) <==> (exists|i: int, k: int|
        0 <= i < n && 0 <= k < c.endpoints[i].keys.len() && #[trigger] one_way(c, c.endpoints[i], k, kind))) by {
        if exists|i: int, k: int|
            0 <= i < n && 0 <= k < c.endpoints[i].keys.len() && #[trigger] one_way(c, c.endpoints[i], k, kind) {
            let (i, k) = choose|i: int, k: int|
                0 <= i < n && 0 <= k < c.endpoints[i].keys.len() && #[trigger] one_way(c, c.endpoints[i], k, kind);
            assert(shows(f4(i), kind));
        }
    }
    assert((exists|i: int| 0 <= i < m && shows(#[trigger] f5(i), kind)) <==> (exists|i: int|
        0 <= i < m && line_wrong(c, (#[trigger] c.partylines[i]).id, kind))) by {
        if exists|i: int| 0 <= i < m && line_wrong(c, (#[trigger] c.partylines[i]).id, kind) {
            let i = choose|i: int| 0 <= i < m && line_wrong(c, (#[trigger] c.partylines[i]).id, kind);
            assert(shows(f5(i), kind));
        }
    }
    assert((exists|i: int| 0 <= i < n && shows(#[trigger] f6(i), kind)) <==> (exists|i: int|
        0 <= i < n && voice_wrong(#[trigger] c.endpoints[i], kind))) by {
        if exists|i: int| 0 <= i < n && voice_wrong(#[trigger] c.endpoints[i], kind) {
            let i = choose|i: int| 0 <= i < n && voice_wrong(#[trigger] c.endpoints[i], kind);
            assert(shows(f6(i), kind));
        }
    }
}

proof fn lemma_wrong_is_found(c: ConfigView, kind: KindView)
    requires
        wrong(c, kind),
    ensures
        shows(findings(c), kind),
{
    lemma_groups(c, kind);
    match kind {
        KindView::UnsupportedSampleRate(_) => {},
        KindView::PtimeNotWholeMilliseconds { .. } => {},
        KindView::DuplicateEndpointId(id) => {
            let (i, j) = choose|i: int, j: int|
                0 <= i < j < c.endpoints.len() && (#[trigger] c.endpoints[i]).id == id && (#[trigger] c.endpoints[j]).id
                    == id;
            assert(repeats_endpoint(c, j));
            assert(kind == KindView::DuplicateEndpointId(c.endpoints[j].id));
        },
        KindView::DuplicatePartylineId(id) => {
            let (i, j) = choose|i: int, j: int|
                0 <= i < j < c.partylines.len() && (#[trigger] c.partylines[i]).id == id && (
                #[trigger] c.partylines[j]).id == id;
            assert(repeats_partyline(c, j));
            assert(kind == KindView::DuplicatePartylineId(c.partylines[j].id));
        },
        KindView::TooManyKeys { endpoint, count } => {
            let i = choose|i: int|
                0 <= i < c.endpoints.len() && (#[trigger] c.endpoints[i]).id == endpoint && c.endpoints[i].keys.len()
                    == count;
            assert(keys_wrong(c, c.endpoints[i], kind));
        },
        KindView::KeySlotOutOfRange { endpoint, slot } => {
            let (i, k) = choose|i: int, k: int| #[trigger]
                is_key_of(c, i, k, endpoint) && c.endpoints[i].keys[k].slot == slot;
            assert(key_wrong(c, c.endpoints[i], k, kind));
            assert(keys_wrong(c, c.endpoints[i], kind));
        },
        KindView::DuplicateKeySlot { endpoint, slot } => {
            let (i, j, k) = choose|i: int, j: int, k: int| #[trigger]
                is_key_of(c, i, j, endpoint) && #[trigger] is_key_of(c, i, k, endpoint) && j < k
                    && c.endpoints[i].keys[j].slot == slot && c.endpoints[i].keys[k].slot == slot;
            assert(c.endpoints[i].keys[j].slot == slot);
            assert(key_wrong(c, c.endpoints[i], k, kind));
            assert(keys_wrong(c, c.endpoints[i], kind));
        },
        KindView::DuplicateKeyTarget { endpoint, slots } => {
            let (i, j, k) = choose|i: int, j: int, k: int| #[trigger]
                is_key_of(c, i, j, endpoint) && #[trigger] is_key_of(c, i, k, endpoint) && j < k
                    && c.endpoints[i].keys[j].target == c.endpoints[i].keys[k].target && slots
                    == (c.endpoints[i].keys[j].slot, c.endpoints[i].keys[k].slot) && first_with_target(
                    c.endpoints[i],
                    j,
                );
            assert(c.endpoints[i].keys[j].target == c.endpoints[i].keys[k].target);
            assert(key_wrong(c, c.endpoints[i], k, kind));
            assert(keys_wrong(c, c.endpoints[i], kind));
        },
        KindView::UnknownPartyline { endpoint, slot, target } => {
            let (i, k) = choose|i: int, k: int| #[trigger]
                is_key_of(c, i, k, endpoint) && c.endpoints[i].keys[k].slot == slot && c.endpoints[i].keys[k].target
                    == TargetView::Partyline(target);
            assert(key_wrong(c, c.endpoints[i], k, kind));
            assert(keys_wrong(c, c.endpoints[i], kind));
        },
        KindView::UnknownEndpoint { endpoint, slot, target } => {
            let (i, k) = choose|i: int, k: int| #[trigger]
                is_key_of(c, i, k, endpoint) && c.endpoints[i].keys[k].slot == slot && c.endpoints[i].keys[k].target
                    == TargetView::Direct(target);
            assert(key_wrong(c, c.endpoints[i], k, kind));
            assert(keys_wrong(c, c.endpoints[i], kind));
        },
        KindView::DirectToSelf { endpoint, slot } => {
            let (i, k) = choose|i: int, k: int| #[trigger]
                is_key_of(c, i, k, endpoint) && c.endpoints[i].keys[k].slot == slot && c.endpoints[i].keys[k].target
                    == TargetView::Direct(endpoint);
            assert(key_wrong(c, c.endpoints[i], k, kind));
            assert(keys_wrong(c, c.endpoints[i], kind));
        },
        KindView::OneWayDirect { from, to } => {
            let (i, k) = choose|i: int, k: int| #[trigger]
                is_key_of(c, i, k, from) && c.endpoints[i].keys[k].target == TargetView::Direct(to);
            assert(one_way(c, c.endpoints[i], k, kind));
        },
        KindView::EmptyPartyline(id) => {
            let p = choose|p: int| 0 <= p < c.partylines.len() && (#[trigger] c.partylines[p]).id == id;
            assert(line_wrong(c, c.partylines[p].id, kind));
        },
        KindView::LonelyPartyline(id) => {
            let p = choose|p: int| 0 <= p < c.partylines.len() && (#[trigger] c.partylines[p]).id == id;
            assert(line_wrong(c, c.partylines[p].id, kind));
        },
        KindView::EndpointWithNoKeys(id) => {
            let i = choose|i: int|
                0 <= i < c.endpoints.len() && (#[trigger] c.endpoints[i]).id == id && c.endpoints[i].keys.len() == 0;
            assert(voice_wrong(c.endpoints[i], kind));
        },
        KindView::EndpointCannotTalk(id) => {
            let i = choose|i: int|
                0 <= i < c.endpoints.len() && (#[trigger] c.endpoints[i]).id == id && c.endpoints[i].keys.len() > 0
                    && forall|k: int|
                    0 <= k < c.endpoints[i].keys.len() ==> (#[trigger] c.endpoints[i].keys[k]).talk_mode is ListenOnly;
            assert(voice_wrong(c.endpoints[i], kind));
        },
    }
}

proof fn lemma_found_is_wrong(c: ConfigView, kind: KindView)
    requires
        shows(findings(c), kind),
    ensures
        wrong(c, kind),
{
    lemma_groups(c, kind);
    if exists|i: int|
        0 <= i < c.endpoints.len() && kind == KindView::DuplicateEndpointId((#[trigger] c.endpoints[i]).id)
            && repeats_endpoint(c, i) {
    } else if exists|i: int|
        0 <= i < c.partylines.len() && kind == KindView::DuplicatePartylineId((#[trigger] c.partylines[i]).id)
            && repeats_partyline(c, i) {
    } else if exists|i: int| 0 <= i < c.endpoints.len() && keys_wrong(c, #[trigger] c.endpoints[i], kind) {
        let i = choose|i: int| 0 <= i < c.endpoints.len() && keys_wrong(c, #[trigger] c.endpoints[i], kind);
        let e = c.endpoints[i];
        if exists|k: int| 0 <= k < e.keys.len() && #[trigger] key_wrong(c, e, k, kind) {
            let k = choose|k: int| 0 <= k < e.keys.len() && #[trigger] key_wrong(c, e, k, kind);
            assert(is_key_of(c, i, k, e.id));
            if let KindView::DuplicateKeySlot { endpoint, slot } = kind {
                let j = choose|j: int| 0 <= j < k && (#[trigger] e.keys[j]).slot == slot;
                assert(is_key_of(c, i, j, e.id));
            }
            if let KindView::DuplicateKeyTarget { endpoint, slots } = kind {
                let j = choose|j: int|
                    0 <= j < k && (#[trigger] e.keys[j]).target == e.keys[k].target && e.keys[j].slot == slots.0
                        && first_with_target(e, j);
                assert(is_key_of(c, i, j, e.id));
            }
        }
    } else if exists|i: int, k: int|
        0 <= i < c.endpoints.len() && 0 <= k < c.endpoints[i].keys.len() && #[trigger] one_way(
            c,
            c.endpoints[i],
            k,
            kind,
        ) {
        let (i, k) = choose|i: int, k: int|
            0 <= i < c.endpoints.len() && 0 <= k < c.endpoints[i].keys.len() && #[trigger] one_way(
                c,
                c.endpoints[i],
                k,
                kind,
            );
        assert(is_key_of(c, i, k, c.endpoints[i].id));
    } else if exists|p: int| 0 <= p < c.partylines.len() && line_wrong(c, (#[trigger] c.partylines[p]).id, kind) {
        let p = choose|p: int| 0 <= p < c.partylines.len() && line_wrong(c, (#[trigger] c.partylines[p]).id, kind);
        assert(is_partyline(c, c.partylines[p].id));
    }
}

/// Validation reports exactly what is wrong, each kind where it holds and nowhere else; an error
/// where it keeps the routing table from being built, a warning elsewhere; errors come first, and
/// each says what its kind means.
pub proof fn law_validation_reports_what_is_wrong(config: &Config, r: Vec<Problem>, kind: KindView)
    requires
        call_ensures(Config::validate, (config,), r),
    ensures
        (exists|i: int| 0 <= i < r@.len() && (#[trigger] r@[i])@.kind == kind) <==> wrong(config@, kind),
        forall|i: int| 0 <= i < r@.len() ==> ((#[trigger] r@[i]).severity is Error <==> fatal(r@[i]@.kind)),
        forall|i: int| 0 <= i < r@.len() ==> (#[trigger] r@[i]).message@ == says(r@[i]@.kind),
        forall|i: int, j: int|
            0 <= i < j < r@.len() && (#[trigger] r@[j]).severity is Error ==> (#[trigger] r@[i]).severity is Error,
{
    let c = config@;
    let all = findings(c);
    let out = ranked_findings(c);
    assert(problems_view(r@) == out);
    let (e, w) = (all.filter(is_error()), all.filter(is_warning()));
    let at = lemma_filter_positions(all, is_error());
    let wt = lemma_filter_positions(all, is_warning());
    lemma_groups(c, kind);
    assert(forall|i: int| 0 <= i < r@.len() ==> (#[trigger] r@[i])@ == out[i]);
    assert forall|i: int| 0 <= i < r@.len() implies ((#[trigger] r@[i]).severity is Error <==> i < e.len()) && (
    r@[i].severity is Error <==> fatal(r@[i]@.kind)) && r@[i].message@ == says(r@[i]@.kind) by {
        assert(r@[i]@ == out[i]);
        if i < e.len() {
            assert(out[i] == e[i] && e[i] == all[at[i]]);
        } else {
            let j = i - e.len();
            assert(out[i] == w[j] && w[j] == all[wt[j]]);
        }
    }
    if wrong(c, kind) {
        lemma_wrong_is_found(c, kind);
        let k = choose|k: int| 0 <= k < all.len() && (#[trigger] all[k]).kind == kind;
        if all[k].severity is Error {
            assert(is_error()(all[k]));
            let i = choose|i: int| 0 <= i < at.len() && at[i] == k;
            assert(r@[i]@ == all[k]);
        } else {
            assert(is_warning()(all[k]));
            let i = choose|i: int| 0 <= i < wt.len() && wt[i] == k;
            assert(r@[e.len() + i]@ == all[k]);
        }
    }
    if exists|i: int| 0 <= i < r@.len() && (#[trigger] r@[i])@.kind == kind {
        let i = choose|i: int| 0 <= i < r@.len() && (#[trigger] r@[i])@.kind == kind;
        assert(r@[i]@ == out[i]);
        if i < e.len() {
            assert(all[at[i]].kind == kind);
        } else {
            assert(all[wt[i - e.len()]].kind == kind);
        }
        assert(shows(all, kind));
        lemma_found_is_wrong(c, kind);
    }
}

/// Every error is something fatal that is wrong, and says so.
pub proof fn lemma_error_is_wrong(c: ConfigView, i: int)
    requires
        0 <= i < errors(c).len(),
    ensures
        fatal(errors(c)[i].kind),
        wrong(c, errors(c)[i].kind),
        errors(c)[i].message == says(errors(c)[i].kind),
{
    let all = findings(c);
    let at = lemma_filter_positions(all, is_error());
    let p = all[at[i]];
    assert(is_error()(p));
    lemma_groups(c, p.kind);
    assert(shows(all, p.kind));
    lemma_found_is_wrong(c, p.kind);
}

/// A configuration is valid exactly where nothing is wrong with it that keeps the routing table
/// from being built.
pub proof fn law_valid_means_nothing_fatal(config: &Config, r: bool)
    requires
        call_ensures(Config::is_valid, (config,), r),
    ensures
        r <==> forall|kind: KindView| fatal(kind) ==> !(#[trigger] wrong(config@, kind)),
{
    let c = config@;
    let all = findings(c);
    let at = lemma_filter_positions(all, is_error());
    if r {
        assert forall|kind: KindView| fatal(kind) implies !(#[trigger] wrong(c, kind)) by {
            lemma_groups(c, kind);
            if wrong(c, kind) {
                lemma_wrong_is_found(c, kind);
                let k = choose|k: int| 0 <= k < all.len() && (#[trigger] all[k]).kind == kind;
                assert(all[k].severity is Error);
                assert(is_error()(all[k]));
                assert(at.contains(k));
            }
        }
    } else {
        let p = all[at[0]];
        assert(is_error()(p));
        lemma_groups(c, p.kind);
        assert(shows(all, p.kind));
        lemma_found_is_wrong(c, p.kind);
        assert(fatal(p.kind) && wrong(c, p.kind));
    }
}

// How often each is reported.

/// How many of the first `n` numbers pass.
pub open spec fn tally(n: int, p: spec_fn(int) -> bool) -> int
    decreases n,
{
    if n <= 0 {
        0
    } else {
        tally(n - 1, p) + if p(n - 1) {
            1int
        } else {
            0
        }
    }
}

/// The sum of `f` over the first `n` numbers.
pub open spec fn total(n: int, f: spec_fn(int) -> int) -> int
    decreases n,
{
    if n <= 0 {
        0
    } else {
        total(n - 1, f) + f(n - 1)
    }
}

spec fn count(s: Seq<ProblemView>, kind: KindView) -> int {
    tally(s.len() as int, |i: int| s[i].kind == kind)
}

proof fn lemma_tally_same(n: int, p: spec_fn(int) -> bool, q: spec_fn(int) -> bool)
    requires
        forall|i: int| 0 <= i < n ==> p(i) == #[trigger] q(i),
    ensures
        tally(n, p) == tally(n, q),
    decreases n,
{
    if n > 0 {
        lemma_tally_same(n - 1, p, q);
        assert(p(n - 1) == q(n - 1));
    }
}

proof fn lemma_total_same(n: int, f: spec_fn(int) -> int, g: spec_fn(int) -> int)
    requires
        forall|i: int| 0 <= i < n ==> f(i) == #[trigger] g(i),
    ensures
        total(n, f) == total(n, g),
    decreases n,
{
    if n > 0 {
        lemma_total_same(n - 1, f, g);
        assert(f(n - 1) == g(n - 1));
    }
}

proof fn lemma_total_tally(n: int, f: spec_fn(int) -> int, p: spec_fn(int) -> bool)
    requires
        forall|i: int| 0 <= i < n ==> f(i) == (if #[trigger] p(i) {
            1int
        } else {
            0
        }),
    ensures
        total(n, f) == tally(n, p),
    decreases n,
{
    if n > 0 {
        lemma_total_tally(n - 1, f, p);
        assert(p(n - 1) || !p(n - 1));
    }
}

proof fn lemma_count_push(s: Seq<ProblemView>, x: ProblemView, kind: KindView)
    ensures
        count(s.push(x), kind) == count(s, kind) + if x.kind == kind {
            1int
        } else {
            0
        },
{
    let t = s.push(x);
    lemma_tally_same(s.len() as int, |i: int| t[i].kind == kind, |i: int| s[i].kind == kind);
}

proof fn lemma_count_add(a: Seq<ProblemView>, b: Seq<ProblemView>, kind: KindView)
    ensures
        count(a + b, kind) == count(a, kind) + count(b, kind),
    decreases b.len(),
{
    if b.len() == 0 {
        assert(a + b =~= a);
    } else {
        let c = b.drop_last();
        lemma_count_add(a, c, kind);
        lemma_count_push(a + c, b.last(), kind);
        lemma_count_push(c, b.last(), kind);
        assert((a + c).push(b.last()) =~= a + b);
        assert(c.push(b.last()) =~= b);
    }
}

proof fn lemma_count_one(p: ProblemView, kind: KindView)
    ensures
        count(seq![p], kind) == if p.kind == kind {
            1int
        } else {
            0
        },
{
    let none = Seq::<ProblemView>::empty();
    lemma_count_push(none, p, kind);
    assert(none.push(p) =~= seq![p]);
}

proof fn lemma_count_gather(n: int, f: spec_fn(int) -> Seq<ProblemView>, kind: KindView)
    ensures
        count(gather(n, f), kind) == total(n, |i: int| count(f(i), kind)),
    decreases n,
{
    if n > 0 {
        lemma_count_gather(n - 1, f, kind);
        lemma_count_add(gather(n - 1, f), f(n - 1), kind);
    } else {
        assert(gather(n, f) =~= Seq::<ProblemView>::empty());
    }
}

/// A list of one finding at most has a kind once or not at all.
proof fn lemma_count_short(s: Seq<ProblemView>, kind: KindView)
    requires
        s.len() <= 1,
    ensures
        count(s, kind) == if shows(s, kind) {
            1int
        } else {
            0
        },
{
    if s.len() == 1 {
        lemma_count_one(s[0], kind);
        assert(s =~= seq![s[0]]);
    } else {
        assert(s =~= Seq::<ProblemView>::empty());
    }
}

proof fn lemma_count_key(c: ConfigView, e: EndpointView, k: int, kind: KindView)
    requires
        0 <= k < e.keys.len(),
    ensures
        count(key_findings(c, e)(k), kind) == if key_wrong(c, e, k, kind) {
            1int
        } else {
            0
        },
{
    let key = e.keys[k];
    let (a, b, r) = (slot_findings(e, k), target_findings(e, k), reference_findings(c, e, k));
    let range = found_if(
        key.slot >= MAX_KEYS,
        error_view(
            KindView::KeySlotOutOfRange { endpoint: e.id, slot: key.slot },
            "'"@ + e.id + "' key slot "@ + decimal(key.slot as nat) + " is outside 0.."@ + decimal(MAX_KEYS as nat),
        ),
    );
    let twice = found_if(
        repeats_slot(e, k),
        error_view(
            KindView::DuplicateKeySlot { endpoint: e.id, slot: key.slot },
            "'"@ + e.id + "' has two keys in slot "@ + decimal(key.slot as nat),
        ),
    );
    assert(a == range + twice);
    lemma_count_add(range, twice, kind);
    lemma_count_add(a, b, kind);
    lemma_count_add(a + b, r, kind);
    lemma_count_short(range, kind);
    lemma_count_short(twice, kind);
    lemma_count_short(b, kind);
    lemma_count_short(r, kind);
    lemma_key(c, e, k, kind);
    lemma_add(range, twice, kind);
    lemma_add(a, b, kind);
    lemma_add(a + b, r, kind);
}

/// How often a problem is to be reported: once for each place where it stands. A name or a slot
/// that is taken again is reported for each taker but the first.
pub open spec fn times(c: ConfigView, kind: KindView) -> int {
    let n = c.endpoints.len() as int;
    let m = c.partylines.len() as int;
    match kind {
        KindView::UnsupportedSampleRate(_) | KindView::PtimeNotWholeMilliseconds { .. } => if wrong(c, kind) {
            1
        } else {
            0
        },
        KindView::DuplicateEndpointId(id) => tally(
            n,
            |j: int| c.endpoints[j].id == id && exists|i: int| 0 <= i < j && (#[trigger] c.endpoints[i]).id == id,
        ),
        KindView::DuplicatePartylineId(id) => tally(
            m,
            |j: int| c.partylines[j].id == id && exists|i: int| 0 <= i < j && (#[trigger] c.partylines[i]).id == id,
        ),
        KindView::TooManyKeys { endpoint, count } => tally(
            n,
            |i: int| c.endpoints[i].id == endpoint && c.endpoints[i].keys.len() == count && count > 10,
        ),
        KindView::OneWayDirect { .. } => total(
            n,
            |i: int| tally(c.endpoints[i].keys.len() as int, |k: int| one_way(c, c.endpoints[i], k, kind)),
        ),
        KindView::EmptyPartyline(_) | KindView::LonelyPartyline(_) => tally(
            m,
            |p: int| line_wrong(c, c.partylines[p].id, kind),
        ),
        KindView::EndpointWithNoKeys(_) | KindView::EndpointCannotTalk(_) => tally(
            n,
            |i: int| voice_wrong(c.endpoints[i], kind),
        ),
        _ => total(
            n,
            |i: int| tally(c.endpoints[i].keys.len() as int, |k: int| key_wrong(c, c.endpoints[i], k, kind)),
        ),
    }
}

proof fn lemma_total_nothing(n: int, f: spec_fn(int) -> int)
    requires
        forall|i: int| 0 <= i < n ==> #[trigger] f(i) == 0,
    ensures
        total(n, f) == 0,
    decreases n,
{
    if n > 0 {
        lemma_total_nothing(n - 1, f);
        assert(f(n - 1) == 0);
    }
}

proof fn lemma_tally_nothing(n: int, p: spec_fn(int) -> bool)
    requires
        forall|i: int| 0 <= i < n ==> !(#[trigger] p(i)),
    ensures
        tally(n, p) == 0,
    decreases n,
{
    if n > 0 {
        lemma_tally_nothing(n - 1, p);
        assert(!p(n - 1));
    }
}

/// Findings about keys, counted.
proof fn lemma_count_keys(c: ConfigView, kind: KindView)
    ensures
        count(gather(c.endpoints.len() as int, keys_findings(c)), kind) == total(
            c.endpoints.len() as int,
            |i: int|
                {
                    let e = c.endpoints[i];
                    let many = if kind == (KindView::TooManyKeys { endpoint: e.id, count: e.keys.len() })
                        && e.keys.len() > 10 {
                        1int
                    } else {
                        0
                    };
                    many + tally(e.keys.len() as int, |k: int| key_wrong(c, e, k, kind))
                },
        ),
{
    let n = c.endpoints.len() as int;
    let f3 = keys_findings(c);
    lemma_count_gather(n, f3, kind);
    let want = |i: int|
        {
            let e = c.endpoints[i];
            let many = if kind == (KindView::TooManyKeys { endpoint: e.id, count: e.keys.len() }) && e.keys.len() > 10 {
                1int
            } else {
                0
            };
            many + tally(e.keys.len() as int, |k: int| key_wrong(c, e, k, kind))
        };
    assert forall|i: int| 0 <= i < n implies count(f3(i), kind) == #[trigger] want(i) by {
        let e = c.endpoints[i];
        let l = e.keys.len() as int;
        let f = key_findings(c, e);
        let p = error_view(
            KindView::TooManyKeys { endpoint: e.id, count: e.keys.len() },
            "'"@ + e.id + "' has "@ + decimal(e.keys.len()) + " keys; the limit is "@ + decimal(MAX_KEYS as nat)
                + ", one per receivable stream"@,
        );
        let many = found_if(e.keys.len() > MAX_KEYS, p);
        lemma_count_add(many, gather(l, f), kind);
        lemma_count_short(many, kind);
        lemma_found(e.keys.len() > MAX_KEYS, p, kind);
        lemma_count_gather(l, f, kind);
        let q = |k: int| key_wrong(c, e, k, kind);
        let g = |k: int| count(f(k), kind);
        assert forall|k: int| 0 <= k < l implies g(k) == (if #[trigger] q(k) {
            1int
        } else {
            0
        }) by {
            lemma_count_key(c, e, k, kind);
        }
        lemma_total_tally(l, g, q);
    }
    lemma_total_same(n, |i: int| count(f3(i), kind), want);
}

/// Findings about direct keys without an answer, counted.
proof fn lemma_count_one_way(c: ConfigView, kind: KindView)
    ensures
        count(gather(c.endpoints.len() as int, reciprocity_findings(c)), kind) == total(
            c.endpoints.len() as int,
            |i: int| tally(c.endpoints[i].keys.len() as int, |k: int| one_way(c, c.endpoints[i], k, kind)),
        ),
{
    let n = c.endpoints.len() as int;
    let f4 = reciprocity_findings(c);
    lemma_count_gather(n, f4, kind);
    let want = |i: int| tally(c.endpoints[i].keys.len() as int, |k: int| one_way(c, c.endpoints[i], k, kind));
    assert forall|i: int| 0 <= i < n implies count(f4(i), kind) == #[trigger] want(i) by {
        let e = c.endpoints[i];
        let l = e.keys.len() as int;
        let f = one_way_findings(c, e);
        lemma_count_gather(l, f, kind);
        let q = |k: int| one_way(c, e, k, kind);
        let g = |k: int| count(f(k), kind);
        assert forall|k: int| 0 <= k < l implies g(k) == (if #[trigger] q(k) {
            1int
        } else {
            0
        }) by {
            lemma_one_way(c, e, k, kind);
            lemma_count_short(f(k), kind);
        }
        lemma_total_tally(l, g, q);
    }
    lemma_total_same(n, |i: int| count(f4(i), kind), want);
}

/// Findings about single endpoints and partylines, counted.
proof fn lemma_count_flat(
    n: int,
    f: spec_fn(int) -> Seq<ProblemView>,
    p: spec_fn(int) -> bool,
    kind: KindView,
)
    requires
        forall|i: int|
            0 <= i < n ==> f(i).len() <= 1 && (shows(f(i), kind) <==> #[trigger] p(i)),
    ensures
        count(gather(n, f), kind) == tally(n, p),
{
    lemma_count_gather(n, f, kind);
    let g = |i: int| count(f(i), kind);
    assert forall|i: int| 0 <= i < n implies g(i) == (if #[trigger] p(i) {
        1int
    } else {
        0
    }) by {
        assert(shows(f(i), kind) <==> p(i));
        lemma_count_short(f(i), kind);
    }
    lemma_total_tally(n, g, p);
}

proof fn lemma_count_findings(c: ConfigView, kind: KindView)
    ensures
        count(findings(c), kind) == times(c, kind),
{
    let n = c.endpoints.len() as int;
    let m = c.partylines.len() as int;
    let (f1, f2, f3, f4, f5, f6) = (
        endpoint_id_findings(c),
        partyline_id_findings(c),
        keys_findings(c),
        reciprocity_findings(c),
        member_findings(c),
        voice_findings(c),
    );
    let s0 = system_findings(c.system);
    let s1 = s0 + gather(n, f1);
    let s2 = s1 + gather(m, f2);
    let s3 = s2 + gather(n, f3);
    let s4 = s3 + gather(n, f4);
    let s5 = s4 + gather(m, f5);
    lemma_count_add(s0, gather(n, f1), kind);
    lemma_count_add(s1, gather(m, f2), kind);
    lemma_count_add(s2, gather(n, f3), kind);
    lemma_count_add(s3, gather(n, f4), kind);
    lemma_count_add(s4, gather(m, f5), kind);
    lemma_count_add(s5, gather(n, f6), kind);
    assert(findings(c) == s5 + gather(n, f6));
    lemma_count_system(c, kind);
    let p1 = |j: int|
        repeats_endpoint(c, j) && kind == KindView::DuplicateEndpointId(c.endpoints[j].id);
    let p2 = |j: int|
        repeats_partyline(c, j) && kind == KindView::DuplicatePartylineId(c.partylines[j].id);
    let p5 = |p: int| line_wrong(c, c.partylines[p].id, kind);
    let p6 = |i: int| voice_wrong(c.endpoints[i], kind);
    assert forall|i: int| 0 <= i < n implies f1(i).len() <= 1 && (shows(f1(i), kind) <==> #[trigger] p1(i)) by {
        lemma_ids(c, i, kind);
    }
    assert forall|i: int| 0 <= i < m implies f2(i).len() <= 1 && (shows(f2(i), kind) <==> #[trigger] p2(i)) by {
        lemma_ids(c, i, kind);
    }
    assert forall|i: int| 0 <= i < m implies f5(i).len() <= 1 && (shows(f5(i), kind) <==> #[trigger] p5(i)) by {
        lemma_line(c, i, kind);
    }
    assert forall|i: int| 0 <= i < n implies f6(i).len() <= 1 && (shows(f6(i), kind) <==> #[trigger] p6(i)) by {
        lemma_voice(c, i, kind);
    }
    lemma_count_flat(n, f1, p1, kind);
    lemma_count_flat(m, f2, p2, kind);
    lemma_count_flat(m, f5, p5, kind);
    lemma_count_flat(n, f6, p6, kind);
    lemma_count_keys(c, kind);
    lemma_count_one_way(c, kind);
    lemma_only_one_group(c, kind);
}

proof fn lemma_count_system(c: ConfigView, kind: KindView)
    ensures
        count(system_findings(c.system), kind) == if (kind is UnsupportedSampleRate
            || kind is PtimeNotWholeMilliseconds) && wrong(c, kind) {
            1int
        } else {
            0
        },
{
    let s = c.system;
    let rate = found_if(
        !rate_supported(s.sample_rate),
        error_view(
            KindView::UnsupportedSampleRate(s.sample_rate),
            "sample rate "@ + decimal(s.sample_rate as nat)
                + " is not one an AES67 device is required to support; use 48000 unless the whole system is deliberately elsewhere"@,
        ),
    );
    let ptime = found_if(
        !ptime_divides(s),
        error_view(
            KindView::PtimeNotWholeMilliseconds { ptime: s.ptime_samples, sample_rate: s.sample_rate },
            "packet time of "@ + decimal(s.ptime_samples as nat) + " samples does not divide the "@ + decimal(
                s.sample_rate as nat,
            ) + " Hz sample rate evenly, so one engine block cannot be one RTP packet"@,
        ),
    );
    lemma_count_add(rate, ptime, kind);
    lemma_count_short(rate, kind);
    lemma_count_short(ptime, kind);
    lemma_system(c, kind);
    lemma_add(rate, ptime, kind);
}

/// A kind belongs to one check, and the others find none of it.
proof fn lemma_only_one_group(c: ConfigView, kind: KindView)
    ensures
        ({
            let n = c.endpoints.len() as int;
            let m = c.partylines.len() as int;
            let t1 = tally(n, |j: int| repeats_endpoint(c, j) && kind == KindView::DuplicateEndpointId(c.endpoints[j].id));
            let t2 = tally(
                m,
                |j: int| repeats_partyline(c, j) && kind == KindView::DuplicatePartylineId(c.partylines[j].id),
            );
            let t3 = total(
                n,
                |i: int|
                    {
                        let e = c.endpoints[i];
                        let many = if kind == (KindView::TooManyKeys { endpoint: e.id, count: e.keys.len() })
                            && e.keys.len() > 10 {
                            1int
                        } else {
                            0
                        };
                        many + tally(e.keys.len() as int, |k: int| key_wrong(c, e, k, kind))
                    },
            );
            let t4 = total(
                n,
                |i: int| tally(c.endpoints[i].keys.len() as int, |k: int| one_way(c, c.endpoints[i], k, kind)),
            );
            let t5 = tally(m, |p: int| line_wrong(c, c.partylines[p].id, kind));
            let t6 = tally(n, |i: int| voice_wrong(c.endpoints[i], kind));
            let t0 = if (kind is UnsupportedSampleRate || kind is PtimeNotWholeMilliseconds) && wrong(c, kind) {
                1int
            } else {
                0
            };
            t0 + t1 + t2 + t3 + t4 + t5 + t6 == times(c, kind)
        }),
{
    let n = c.endpoints.len() as int;
    let m = c.partylines.len() as int;
    let p1 = |j: int| repeats_endpoint(c, j) && kind == KindView::DuplicateEndpointId(c.endpoints[j].id);
    let p2 = |j: int| repeats_partyline(c, j) && kind == KindView::DuplicatePartylineId(c.partylines[j].id);
    let p5 = |p: int| line_wrong(c, c.partylines[p].id, kind);
    let p6 = |i: int| voice_wrong(c.endpoints[i], kind);
    let g3 = |i: int|
        {
            let e = c.endpoints[i];
            let many = if kind == (KindView::TooManyKeys { endpoint: e.id, count: e.keys.len() }) && e.keys.len() > 10 {
                1int
            } else {
                0
            };
            many + tally(e.keys.len() as int, |k: int| key_wrong(c, e, k, kind))
        };
    let g4 = |i: int| tally(c.endpoints[i].keys.len() as int, |k: int| one_way(c, c.endpoints[i], k, kind));
    let keyed = kind is KeySlotOutOfRange || kind is DuplicateKeySlot || kind is DuplicateKeyTarget
        || kind is UnknownPartyline || kind is UnknownEndpoint || kind is DirectToSelf;
    if !(kind is DuplicateEndpointId) {
        lemma_tally_nothing(n, p1);
    }
    if !(kind is DuplicatePartylineId) {
        lemma_tally_nothing(m, p2);
    }
    if !(kind is EmptyPartyline || kind is LonelyPartyline) {
        lemma_tally_nothing(m, p5);
    }
    if !(kind is EndpointWithNoKeys || kind is EndpointCannotTalk) {
        lemma_tally_nothing(n, p6);
    }
    if !(kind is OneWayDirect) {
        assert forall|i: int| 0 <= i < n implies #[trigger] g4(i) == 0 by {
            lemma_tally_nothing(c.endpoints[i].keys.len() as int, |k: int| one_way(c, c.endpoints[i], k, kind));
        }
        lemma_total_nothing(n, g4);
    }
    if kind is TooManyKeys {
        let p3 = |i: int|
            c.endpoints[i].id == kind->TooManyKeys_endpoint && c.endpoints[i].keys.len() == kind->count && kind->count
                > 10;
        assert forall|i: int| 0 <= i < n implies g3(i) == (if #[trigger] p3(i) {
            1int
        } else {
            0
        }) by {
            let e = c.endpoints[i];
            lemma_tally_nothing(e.keys.len() as int, |k: int| key_wrong(c, e, k, kind));
        }
        lemma_total_tally(n, g3, p3);
    } else if keyed {
        lemma_total_same(
            n,
            g3,
            |i: int| tally(c.endpoints[i].keys.len() as int, |k: int| key_wrong(c, c.endpoints[i], k, kind)),
        );
    } else {
        assert forall|i: int| 0 <= i < n implies #[trigger] g3(i) == 0 by {
            let e = c.endpoints[i];
            lemma_tally_nothing(e.keys.len() as int, |k: int| key_wrong(c, e, k, kind));
        }
        lemma_total_nothing(n, g3);
    }
    if let KindView::DuplicateEndpointId(id) = kind {
        let q = |j: int| c.endpoints[j].id == id && exists|i: int| 0 <= i < j && (#[trigger] c.endpoints[i]).id == id;
        assert forall|j: int| 0 <= j < n implies p1(j) == #[trigger] q(j) by {
            if p1(j) {
                let i = choose|i: int| 0 <= i < j && #[trigger] c.endpoints[i].id == c.endpoints[j].id;
                assert(c.endpoints[i].id == id);
            }
            if q(j) {
                let i = choose|i: int| 0 <= i < j && (#[trigger] c.endpoints[i]).id == id;
                assert(c.endpoints[i].id == c.endpoints[j].id);
            }
        }
        lemma_tally_same(n, p1, q);
    }
    if let KindView::DuplicatePartylineId(id) = kind {
        let q = |j: int| c.partylines[j].id == id && exists|i: int| 0 <= i < j && (#[trigger] c.partylines[i]).id == id;
        assert forall|j: int| 0 <= j < m implies p2(j) == #[trigger] q(j) by {
            if p2(j) {
                let i = choose|i: int| 0 <= i < j && #[trigger] c.partylines[i].id == c.partylines[j].id;
                assert(c.partylines[i].id == id);
            }
            if q(j) {
                let i = choose|i: int| 0 <= i < j && (#[trigger] c.partylines[i]).id == id;
                assert(c.partylines[i].id == c.partylines[j].id);
            }
        }
        lemma_tally_same(m, p2, q);
    }
}

proof fn lemma_count_filter(s: Seq<ProblemView>, kind: KindView)
    ensures
        count(s.filter(is_error()), kind) + count(s.filter(is_warning()), kind) == count(s, kind),
    decreases s.len(),
{
    reveal(Seq::filter);
    if s.len() > 0 {
        let rest = s.drop_last();
        lemma_count_filter(rest, kind);
        lemma_count_push(rest, s.last(), kind);
        assert(rest.push(s.last()) =~= s);
        lemma_count_push(rest.filter(is_error()), s.last(), kind);
        lemma_count_push(rest.filter(is_warning()), s.last(), kind);
    }
}

/// Each problem is reported once for each place where it stands, and not again.
pub proof fn law_each_problem_is_reported_once_per_place(config: &Config, r: Vec<Problem>, kind: KindView)
    requires
        call_ensures(Config::validate, (config,), r),
    ensures
        tally(r@.len() as int, |i: int| r@[i]@.kind == kind) == times(config@, kind),
{
    let c = config@;
    let (e, w) = (findings(c).filter(is_error()), findings(c).filter(is_warning()));
    lemma_count_findings(c, kind);
    lemma_count_filter(findings(c), kind);
    lemma_count_add(e, w, kind);
    let out = problems_view(r@);
    assert(out == e + w);
    assert(out.len() == r@.len());
    lemma_tally_same(r@.len() as int, |i: int| r@[i]@.kind == kind, |i: int| out[i].kind == kind);
}

// In which order.

/// The order of the checks: the system, names of endpoints, names of partylines, keys, direct
/// keys without an answer, members, voices.
pub open spec fn turn(kind: KindView) -> int {
    match kind {
        KindView::UnsupportedSampleRate(_) | KindView::PtimeNotWholeMilliseconds { .. } => 0,
        KindView::DuplicateEndpointId(_) => 1,
        KindView::DuplicatePartylineId(_) => 2,
        KindView::OneWayDirect { .. } => 4,
        KindView::EmptyPartyline(_) | KindView::LonelyPartyline(_) => 5,
        KindView::EndpointWithNoKeys(_) | KindView::EndpointCannotTalk(_) => 6,
        _ => 3,
    }
}

spec fn all_turn(s: Seq<ProblemView>, t: int) -> bool {
    forall|i: int| 0 <= i < s.len() ==> turn((#[trigger] s[i]).kind) == t
}

spec fn in_turn(s: Seq<ProblemView>, last: int) -> bool {
    &&& forall|i: int| 0 <= i < s.len() ==> turn((#[trigger] s[i]).kind) <= last
    &&& forall|i: int, j: int| 0 <= i < j < s.len() ==> turn((#[trigger] s[i]).kind) <= turn((#[trigger] s[j]).kind)
}

proof fn lemma_turns_gather(n: int, f: spec_fn(int) -> Seq<ProblemView>, t: int)
    requires
        forall|i: int| 0 <= i < n ==> all_turn(#[trigger] f(i), t),
    ensures
        all_turn(gather(n, f), t),
    decreases n,
{
    if n > 0 {
        lemma_turns_gather(n - 1, f, t);
        assert(all_turn(f(n - 1), t));
    }
}

proof fn lemma_turns_add(a: Seq<ProblemView>, last: int, b: Seq<ProblemView>, t: int)
    requires
        in_turn(a, last),
        all_turn(b, t),
        last <= t,
    ensures
        in_turn(a + b, t),
{
}

proof fn lemma_in_turn(c: ConfigView)
    ensures
        in_turn(findings(c), 6),
{
    let n = c.endpoints.len() as int;
    let m = c.partylines.len() as int;
    let (f1, f2, f3, f4, f5, f6) = (
        endpoint_id_findings(c),
        partyline_id_findings(c),
        keys_findings(c),
        reciprocity_findings(c),
        member_findings(c),
        voice_findings(c),
    );
    let s0 = system_findings(c.system);
    let s1 = s0 + gather(n, f1);
    let s2 = s1 + gather(m, f2);
    let s3 = s2 + gather(n, f3);
    let s4 = s3 + gather(n, f4);
    let s5 = s4 + gather(m, f5);
    assert forall|i: int| 0 <= i < s0.len() implies turn((#[trigger] s0[i]).kind) == 0 by {
        lemma_system(c, s0[i].kind);
        assert(shows(s0, s0[i].kind));
    }
    assert forall|i: int| 0 <= i < n implies all_turn(#[trigger] f1(i), 1) by {
        assert forall|q: int| 0 <= q < f1(i).len() implies turn((#[trigger] f1(i)[q]).kind) == 1 by {
            lemma_ids(c, i, f1(i)[q].kind);
            assert(shows(f1(i), f1(i)[q].kind));
        }
    }
    assert forall|i: int| 0 <= i < m implies all_turn(#[trigger] f2(i), 2) by {
        assert forall|q: int| 0 <= q < f2(i).len() implies turn((#[trigger] f2(i)[q]).kind) == 2 by {
            lemma_ids(c, i, f2(i)[q].kind);
            assert(shows(f2(i), f2(i)[q].kind));
        }
    }
    assert forall|i: int| 0 <= i < n implies all_turn(#[trigger] f3(i), 3) by {
        assert forall|q: int| 0 <= q < f3(i).len() implies turn((#[trigger] f3(i)[q]).kind) == 3 by {
            lemma_keys(c, i, f3(i)[q].kind);
            assert(shows(f3(i), f3(i)[q].kind));
        }
    }
    assert forall|i: int| 0 <= i < n implies all_turn(#[trigger] f4(i), 4) by {
        assert forall|q: int| 0 <= q < f4(i).len() implies turn((#[trigger] f4(i)[q]).kind) == 4 by {
            lemma_reciprocity(c, i, f4(i)[q].kind);
            assert(shows(f4(i), f4(i)[q].kind));
        }
    }
    assert forall|i: int| 0 <= i < m implies all_turn(#[trigger] f5(i), 5) by {
        assert forall|q: int| 0 <= q < f5(i).len() implies turn((#[trigger] f5(i)[q]).kind) == 5 by {
            lemma_line(c, i, f5(i)[q].kind);
            assert(shows(f5(i), f5(i)[q].kind));
        }
    }
    assert forall|i: int| 0 <= i < n implies all_turn(#[trigger] f6(i), 6) by {
        assert forall|q: int| 0 <= q < f6(i).len() implies turn((#[trigger] f6(i)[q]).kind) == 6 by {
            lemma_voice(c, i, f6(i)[q].kind);
            assert(shows(f6(i), f6(i)[q].kind));
        }
    }
    lemma_turns_gather(n, f1, 1);
    lemma_turns_gather(m, f2, 2);
    lemma_turns_gather(n, f3, 3);
    lemma_turns_gather(n, f4, 4);
    lemma_turns_gather(m, f5, 5);
    lemma_turns_gather(n, f6, 6);
    assert(in_turn(s0, 0));
    lemma_turns_add(s0, 0, gather(n, f1), 1);
    lemma_turns_add(s1, 1, gather(m, f2), 2);
    lemma_turns_add(s2, 2, gather(n, f3), 3);
    lemma_turns_add(s3, 3, gather(n, f4), 4);
    lemma_turns_add(s4, 4, gather(m, f5), 5);
    lemma_turns_add(s5, 5, gather(n, f6), 6);
    assert(findings(c) == s5 + gather(n, f6));
}

/// Among the errors, and among the warnings, what is reported follows the order of the checks.
pub proof fn law_problems_follow_the_order_of_the_checks(config: &Config, r: Vec<Problem>, i: int, j: int)
    requires
        call_ensures(Config::validate, (config,), r),
        0 <= i < j < r@.len(),
        r@[i].severity == r@[j].severity,
    ensures
        turn(r@[i]@.kind) <= turn(r@[j]@.kind),
{
    let c = config@;
    let all = findings(c);
    let (e, w) = (all.filter(is_error()), all.filter(is_warning()));
    let at = lemma_filter_positions(all, is_error());
    let wt = lemma_filter_positions(all, is_warning());
    let out = problems_view(r@);
    lemma_in_turn(c);
    assert(out == e + w);
    assert(out.len() == r@.len());
    assert(out[i] == r@[i]@ && out[j] == r@[j]@);
    let l = e.len() as int;
    if j < l {
        assert(out[i] == all[at[i]] && out[j] == all[at[j]]);
        assert(at[i] < at[j]);
    } else if i >= l {
        assert(out[i] == all[wt[i - l]] && out[j] == all[wt[j - l]]);
        assert(wt[i - l] < wt[j - l]);
    } else {
        assert(is_error()(all[at[i]]) && is_warning()(all[wt[j - l]]));
        assert(out[i] == all[at[i]] && out[j] == all[wt[j - l]]);
    }
}

} // verus!
