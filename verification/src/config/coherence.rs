//! What it means for a configuration to have no errors.

use vstd::prelude::*;

use crate::config::findings::{
    earlier_same_target, endpoint_id_findings, error_view, errors, findings, found_if, gather, is_error,
    is_warning, key_findings, keys_findings, member_findings, one_way_findings, partyline_id_findings,
    ptime_divides, ranked_findings, rate_supported, reciprocity_findings, reference_findings,
    repeats_endpoint, repeats_partyline, repeats_slot, slot_findings, system_findings, target_findings,
    voice_findings, KindView, ProblemView, Severity,
};
use crate::config::model::{ConfigView, EndpointView, KeyView, TargetView, MAX_KEYS};
use crate::text::decimal;

verus! {

/// A configuration that can be turned into a working routing table.
pub open spec fn coherent(c: ConfigView) -> bool {
    &&& rate_supported(c.system.sample_rate)
    &&& ptime_divides(c.system)
    &&& forall|i: int, j: int|
        #![trigger c.endpoints[i], c.endpoints[j]]
        0 <= i < j < c.endpoints.len() ==> c.endpoints[i].id != c.endpoints[j].id
    &&& forall|i: int, j: int|
        #![trigger c.partylines[i], c.partylines[j]]
        0 <= i < j < c.partylines.len() ==> c.partylines[i].id != c.partylines[j].id
    &&& forall|i: int| 0 <= i < c.endpoints.len() ==> coherent_keys(c, #[trigger] c.endpoints[i])
}

/// Keys that can all be routed: few enough, each in a slot of its own, each pointing
/// somewhere that exists, no two at the same place.
pub open spec fn coherent_keys(c: ConfigView, e: EndpointView) -> bool {
    &&& e.keys.len() <= MAX_KEYS
    &&& forall|k: int| 0 <= k < e.keys.len() ==> (#[trigger] e.keys[k]).slot < MAX_KEYS
    &&& forall|j: int, k: int|
        #![trigger e.keys[j], e.keys[k]]
        0 <= j < k < e.keys.len() ==> e.keys[j].slot != e.keys[k].slot && e.keys[j].target != e.keys[k].target
    &&& forall|k: int| 0 <= k < e.keys.len() ==> reachable(c, e, #[trigger] e.keys[k])
}

/// Whether a key points at an existing partyline, or at an existing other endpoint.
pub open spec fn reachable(c: ConfigView, e: EndpointView, key: KeyView) -> bool {
    match key.target {
        TargetView::Partyline(p) => c.partyline_at(p) is Some,
        TargetView::Direct(d) => d != e.id && c.endpoint_at(d) is Some,
    }
}

spec fn has_error(s: Seq<ProblemView>) -> bool {
    s.filter(is_error()).len() > 0
}

proof fn lemma_has_error_add(a: Seq<ProblemView>, b: Seq<ProblemView>)
    ensures
        has_error(a + b) == (has_error(a) || has_error(b)),
{
    Seq::filter_distributes_over_add(a, b, is_error());
}

proof fn lemma_has_error_found(b: bool, p: ProblemView)
    ensures
        has_error(found_if(b, p)) == (b && p.severity == Severity::Error),
        has_error(Seq::<ProblemView>::empty()) == false,
        has_error(seq![p]) == (p.severity == Severity::Error),
{
    reveal(Seq::filter);
    let none = Seq::<ProblemView>::empty();
    none.lemma_filter_push(p, is_error());
    assert(none.push(p) =~= seq![p]);
}

proof fn lemma_has_error_gather(n: int, f: spec_fn(int) -> Seq<ProblemView>)
    ensures
        has_error(gather(n, f)) == (exists|i: int| 0 <= i < n && has_error(#[trigger] f(i))),
    decreases n,
{
    if n <= 0 {
        reveal(Seq::filter);
    } else {
        lemma_has_error_gather(n - 1, f);
        lemma_has_error_add(gather(n - 1, f), f(n - 1));
        if exists|i: int| 0 <= i < n && has_error(#[trigger] f(i)) {
            let i = choose|i: int| 0 <= i < n && has_error(#[trigger] f(i));
            if i != n - 1 {
                assert(exists|i: int| 0 <= i < n - 1 && has_error(#[trigger] f(i)));
            }
        }
    }
}

proof fn lemma_earlier_same_target(e: EndpointView, k: int, from: int)
    requires
        0 <= from,
    ensures
        match earlier_same_target(e, k, from) {
            Some(j) => from <= j < k && e.keys[j].target == e.keys[k].target,
            None => forall|j: int| from <= j < k ==> e.keys[j].target != e.keys[k].target,
        },
    decreases k - from,
{
    if from < k && e.keys[from].target != e.keys[k].target {
        lemma_earlier_same_target(e, k, from + 1);
    }
}

spec fn key_in_order(c: ConfigView, e: EndpointView, k: int) -> bool {
    &&& e.keys[k].slot < MAX_KEYS
    &&& !repeats_slot(e, k)
    &&& earlier_same_target(e, k, 0) is None
    &&& reachable(c, e, e.keys[k])
}

proof fn lemma_key_errors(c: ConfigView, e: EndpointView, k: int)
    ensures
        has_error(key_findings(c, e)(k)) == !key_in_order(c, e, k),
{
    let key = e.keys[k];
    let range = error_view(
        KindView::KeySlotOutOfRange { endpoint: e.id, slot: key.slot },
        "'"@ + e.id + "' key slot "@ + decimal(key.slot as nat) + " is outside 0.."@ + decimal(MAX_KEYS as nat),
    );
    let twice = error_view(
        KindView::DuplicateKeySlot { endpoint: e.id, slot: key.slot },
        "'"@ + e.id + "' has two keys in slot "@ + decimal(key.slot as nat),
    );
    lemma_has_error_found(key.slot >= MAX_KEYS, range);
    lemma_has_error_found(repeats_slot(e, k), twice);
    lemma_has_error_add(found_if(key.slot >= MAX_KEYS, range), found_if(repeats_slot(e, k), twice));
    let t = target_findings(e, k);
    let r = reference_findings(c, e, k);
    if t.len() > 0 {
        lemma_has_error_found(true, t[0]);
        assert(t =~= seq![t[0]]);
    }
    if r.len() > 0 {
        lemma_has_error_found(true, r[0]);
        assert(r =~= seq![r[0]]);
    }
    lemma_has_error_add(slot_findings(e, k), t);
    lemma_has_error_add(slot_findings(e, k) + t, r);
}

proof fn lemma_keys_in_order(c: ConfigView, e: EndpointView)
    requires
        e.keys.len() <= MAX_KEYS,
        forall|k: int| 0 <= k < e.keys.len() ==> #[trigger] key_in_order(c, e, k),
    ensures
        coherent_keys(c, e),
{
    assert forall|j: int, k: int|
        #![trigger e.keys[j], e.keys[k]]
        0 <= j < k < e.keys.len() implies e.keys[j].slot != e.keys[k].slot && e.keys[j].target
        != e.keys[k].target by {
        assert(key_in_order(c, e, k));
        lemma_earlier_same_target(e, k, 0);
    }
    assert forall|k: int| 0 <= k < e.keys.len() implies (#[trigger] e.keys[k]).slot < MAX_KEYS && reachable(
        c,
        e,
        e.keys[k],
    ) by {
        assert(key_in_order(c, e, k));
    }
}

proof fn lemma_coherent_key_in_order(c: ConfigView, e: EndpointView, k: int)
    requires
        coherent_keys(c, e),
        0 <= k < e.keys.len(),
    ensures
        key_in_order(c, e, k),
{
    lemma_earlier_same_target(e, k, 0);
    assert(e.keys[k].slot < MAX_KEYS);
    assert(reachable(c, e, e.keys[k]));
}

proof fn lemma_endpoint_errors(c: ConfigView, i: int)
    requires
        0 <= i < c.endpoints.len(),
    ensures
        has_error(keys_findings(c)(i)) == !coherent_keys(c, c.endpoints[i]),
{
    let e = c.endpoints[i];
    let many = error_view(
        KindView::TooManyKeys { endpoint: e.id, count: e.keys.len() },
        "'"@ + e.id + "' has "@ + decimal(e.keys.len()) + " keys; the limit is "@ + decimal(MAX_KEYS as nat)
            + ", one per receivable stream"@,
    );
    let f = key_findings(c, e);
    let n = e.keys.len() as int;
    lemma_has_error_found(n > MAX_KEYS, many);
    lemma_has_error_add(found_if(n > MAX_KEYS, many), gather(n, f));
    lemma_has_error_gather(n, f);
    assert(has_error(keys_findings(c)(i)) == (n > MAX_KEYS || exists|k: int| 0 <= k < n && has_error(#[trigger] f(k))));
    if coherent_keys(c, e) {
        assert forall|k: int| 0 <= k < n implies !has_error(#[trigger] f(k)) by {
            lemma_coherent_key_in_order(c, e, k);
            lemma_key_errors(c, e, k);
        }
    } else if n <= MAX_KEYS {
        if forall|k: int| 0 <= k < n ==> #[trigger] key_in_order(c, e, k) {
            lemma_keys_in_order(c, e);
        }
        let k = choose|k: int| 0 <= k < n && !#[trigger] key_in_order(c, e, k);
        lemma_key_errors(c, e, k);
        assert(has_error(f(k)));
    }
}

proof fn lemma_id_errors(c: ConfigView)
    ensures
        has_error(gather(c.endpoints.len() as int, endpoint_id_findings(c))) == exists|i: int|
            0 <= i < c.endpoints.len() && #[trigger] repeats_endpoint(c, i),
        has_error(gather(c.partylines.len() as int, partyline_id_findings(c))) == exists|i: int|
            0 <= i < c.partylines.len() && #[trigger] repeats_partyline(c, i),
{
    let f = endpoint_id_findings(c);
    lemma_has_error_gather(c.endpoints.len() as int, f);
    assert forall|i: int| has_error(#[trigger] f(i)) == repeats_endpoint(c, i) by {
        lemma_has_error_found(
            repeats_endpoint(c, i),
            error_view(
                KindView::DuplicateEndpointId(c.endpoints[i].id),
                "two endpoints share the id '"@ + c.endpoints[i].id + "'"@,
            ),
        );
    }
    if exists|i: int| 0 <= i < c.endpoints.len() && #[trigger] repeats_endpoint(c, i) {
        let i = choose|i: int| 0 <= i < c.endpoints.len() && #[trigger] repeats_endpoint(c, i);
        assert(has_error(f(i)));
    }
    let g = partyline_id_findings(c);
    lemma_has_error_gather(c.partylines.len() as int, g);
    assert forall|i: int| has_error(#[trigger] g(i)) == repeats_partyline(c, i) by {
        lemma_has_error_found(
            repeats_partyline(c, i),
            error_view(
                KindView::DuplicatePartylineId(c.partylines[i].id),
                "two partylines share the id '"@ + c.partylines[i].id + "'"@,
            ),
        );
    }
    if exists|i: int| 0 <= i < c.partylines.len() && #[trigger] repeats_partyline(c, i) {
        let i = choose|i: int| 0 <= i < c.partylines.len() && #[trigger] repeats_partyline(c, i);
        assert(has_error(g(i)));
    }
}

proof fn lemma_only_warnings(c: ConfigView)
    ensures
        !has_error(gather(c.endpoints.len() as int, reciprocity_findings(c))),
        !has_error(gather(c.partylines.len() as int, member_findings(c))),
        !has_error(gather(c.endpoints.len() as int, voice_findings(c))),
{
    let f = reciprocity_findings(c);
    lemma_has_error_gather(c.endpoints.len() as int, f);
    assert forall|i: int| !has_error(#[trigger] f(i)) by {
        let e = c.endpoints[i];
        let g = one_way_findings(c, e);
        lemma_has_error_gather(e.keys.len() as int, g);
        assert forall|k: int| !has_error(#[trigger] g(k)) by {
            let s = g(k);
            if s.len() > 0 {
                lemma_has_error_found(true, s[0]);
                assert(s =~= seq![s[0]]);
            } else {
                lemma_has_error_found(true, error_view(KindView::EmptyPartyline(e.id), e.id));
                assert(s =~= Seq::<ProblemView>::empty());
            }
        }
    }
    let m = member_findings(c);
    lemma_has_error_gather(c.partylines.len() as int, m);
    assert forall|i: int| !has_error(#[trigger] m(i)) by {
        let s = m(i);
        if s.len() > 0 {
            lemma_has_error_found(true, s[0]);
            assert(s =~= seq![s[0]]);
        } else {
            lemma_has_error_found(true, error_view(KindView::EmptyPartyline(c.system.name), c.system.name));
            assert(s =~= Seq::<ProblemView>::empty());
        }
    }
    let v = voice_findings(c);
    lemma_has_error_gather(c.endpoints.len() as int, v);
    assert forall|i: int| !has_error(#[trigger] v(i)) by {
        let s = v(i);
        if s.len() > 0 {
            lemma_has_error_found(true, s[0]);
            assert(s =~= seq![s[0]]);
        } else {
            lemma_has_error_found(true, error_view(KindView::EmptyPartyline(c.system.name), c.system.name));
            assert(s =~= Seq::<ProblemView>::empty());
        }
    }
}

/// Validation finds no error if and only if the configuration is coherent.
pub proof fn lemma_coherent(c: ConfigView)
    ensures
        (errors(c).len() == 0) == coherent(c),
{
    let endpoints = c.endpoints.len() as int;
    let partylines = c.partylines.len() as int;
    let s1 = system_findings(c.system);
    let s2 = gather(endpoints, endpoint_id_findings(c));
    let s3 = gather(partylines, partyline_id_findings(c));
    let s4 = gather(endpoints, keys_findings(c));
    let s5 = gather(endpoints, reciprocity_findings(c));
    let s6 = gather(partylines, member_findings(c));
    let s7 = gather(endpoints, voice_findings(c));
    lemma_has_error_add(s1, s2);
    lemma_has_error_add(s1 + s2, s3);
    lemma_has_error_add(s1 + s2 + s3, s4);
    lemma_has_error_add(s1 + s2 + s3 + s4, s5);
    lemma_has_error_add(s1 + s2 + s3 + s4 + s5, s6);
    lemma_has_error_add(s1 + s2 + s3 + s4 + s5 + s6, s7);
    lemma_only_warnings(c);
    lemma_id_errors(c);
    let rate = error_view(
        KindView::UnsupportedSampleRate(c.system.sample_rate),
        "sample rate "@ + decimal(c.system.sample_rate as nat)
            + " is not one an AES67 device is required to support; use 48000 unless the whole system is deliberately elsewhere"@,
    );
    let ptime = error_view(
        KindView::PtimeNotWholeMilliseconds {
            ptime: c.system.ptime_samples,
            sample_rate: c.system.sample_rate,
        },
        "packet time of "@ + decimal(c.system.ptime_samples as nat) + " samples does not divide the "@ + decimal(
            c.system.sample_rate as nat,
        ) + " Hz sample rate evenly, so one engine block cannot be one RTP packet"@,
    );
    lemma_has_error_found(!rate_supported(c.system.sample_rate), rate);
    lemma_has_error_found(!ptime_divides(c.system), ptime);
    lemma_has_error_add(
        found_if(!rate_supported(c.system.sample_rate), rate),
        found_if(!ptime_divides(c.system), ptime),
    );
    lemma_has_error_gather(endpoints, keys_findings(c));
    assert forall|i: int| 0 <= i < endpoints implies has_error(#[trigger] keys_findings(c)(i))
        == !coherent_keys(c, c.endpoints[i]) by {
        lemma_endpoint_errors(c, i);
    }
    assert(has_error(s4) == exists|i: int| 0 <= i < endpoints && !coherent_keys(c, #[trigger] c.endpoints[i])) by {
        if exists|i: int| 0 <= i < endpoints && !coherent_keys(c, #[trigger] c.endpoints[i]) {
            let i = choose|i: int| 0 <= i < endpoints && !coherent_keys(c, #[trigger] c.endpoints[i]);
            assert(has_error(keys_findings(c)(i)));
        }
    }
    assert((exists|i: int| 0 <= i < endpoints && #[trigger] repeats_endpoint(c, i)) == !(forall|i: int, j: int|
        #![trigger c.endpoints[i], c.endpoints[j]]
        0 <= i < j < endpoints ==> c.endpoints[i].id != c.endpoints[j].id)) by {
        if !(forall|i: int, j: int|
            #![trigger c.endpoints[i], c.endpoints[j]]
            0 <= i < j < endpoints ==> c.endpoints[i].id != c.endpoints[j].id) {
            let (i, j) = choose|i: int, j: int|
                #![trigger c.endpoints[i], c.endpoints[j]]
                0 <= i < j < endpoints && c.endpoints[i].id == c.endpoints[j].id;
            assert(repeats_endpoint(c, j));
        }
    }
    assert((exists|i: int| 0 <= i < partylines && #[trigger] repeats_partyline(c, i)) == !(forall|
        i: int,
        j: int,
    |
        #![trigger c.partylines[i], c.partylines[j]]
        0 <= i < j < partylines ==> c.partylines[i].id != c.partylines[j].id)) by {
        if !(forall|i: int, j: int|
            #![trigger c.partylines[i], c.partylines[j]]
            0 <= i < j < partylines ==> c.partylines[i].id != c.partylines[j].id) {
            let (i, j) = choose|i: int, j: int|
                #![trigger c.partylines[i], c.partylines[j]]
                0 <= i < j < partylines && c.partylines[i].id == c.partylines[j].id;
            assert(repeats_partyline(c, j));
        }
    }
}

/// If there is any error, the first ranked finding is one.
pub proof fn lemma_errors_first(c: ConfigView)
    ensures
        errors(c).len() > 0 ==> ranked_findings(c)[0] == errors(c)[0] && errors(c)[0].severity
            == Severity::Error,
        errors(c).len() == 0 && ranked_findings(c).len() > 0 ==> ranked_findings(c)[0].severity
            == Severity::Warning,
{
    broadcast use Seq::lemma_filter_pred;

    if errors(c).len() > 0 {
        assert(is_error()(errors(c)[0]));
    }
    let w = findings(c).filter(is_warning());
    if w.len() > 0 {
        assert(is_warning()(w[0]));
    }
}

} // verus!
