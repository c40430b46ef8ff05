//! Validation: everything that would break the routing table or surprise the operator.

use vstd::prelude::*;

use crate::config::coherence::{coherent, lemma_coherent, lemma_errors_first};
use crate::config::findings::{
    calls, earlier_same_target, endpoint_id_findings, error_view, errors, findings, found_if, gather,
    has_talk_key, is_error, is_warning, key_findings, keys_findings, member_findings, one_way_findings,
    partyline_id_findings, problems_view, ranked_findings, reciprocity_findings, reference_findings,
    slot_findings, system_findings, target_findings, voice_findings, KindView, Problem, ProblemKind,
    ProblemView, Severity,
};
use crate::config::model::{Config, Endpoint, EndpointId, KeyTarget, TalkMode, TargetView, MAX_KEYS};
use crate::text::{decimal, push_decimal};

verus! {

// The checks.

/// Adds one finding.
fn note(out: &mut Vec<Problem>, p: Problem)
    ensures
        problems_view(final(out)@) == problems_view(old(out)@) + seq![p@],
{
    out.push(p);
    assert(problems_view(out@) =~= problems_view(old(out)@) + seq![p@]);
}

/// Starts a message with the quoted id of an endpoint.
fn quoted(id: &EndpointId) -> (m: String)
    ensures
        m@ == "'"@ + id@,
{
    let mut m = "'".to_owned();
    m.append(id.as_str());
    m
}

proof fn lemma_add_nothing(s: Seq<ProblemView>)
    ensures
        s + Seq::<ProblemView>::empty() == s,
{
    assert(s + Seq::<ProblemView>::empty() =~= s);
}

fn check_slot(e: &Endpoint, k: usize, out: &mut Vec<Problem>)
    requires
        k < e.keys@.len(),
    ensures
        problems_view(final(out)@) == problems_view(old(out)@) + slot_findings(e@, k as int),
{
    let slot: u8 = e.keys[k].slot;
    let ghost start = problems_view(out@);
    let ghost found = slot_findings(e@, k as int);
    if slot as usize >= MAX_KEYS {
        let mut m = quoted(&e.id);
        m.append("' key slot ");
        push_decimal(&mut m, slot as u64);
        m.append(" is outside 0..");
        push_decimal(&mut m, MAX_KEYS as u64);
        note(out, Problem::error(ProblemKind::KeySlotOutOfRange { endpoint: e.id.clone(), slot }, m));
    }
    let mut seen = false;
    let mut j: usize = 0;
    while j < k
        invariant
            j <= k < e.keys@.len(),
            slot == e.keys@[k as int].slot,
            seen == (exists|i: int| 0 <= i < j && #[trigger] e@.keys[i].slot == e@.keys[k as int].slot),
        decreases k - j,
    {
        if e.keys[j].slot == slot {
            assert(e@.keys[j as int].slot == e@.keys[k as int].slot);
            seen = true;
        }
        j += 1;
    }
    if seen {
        let mut m = quoted(&e.id);
        m.append("' has two keys in slot ");
        push_decimal(&mut m, slot as u64);
        note(out, Problem::error(ProblemKind::DuplicateKeySlot { endpoint: e.id.clone(), slot }, m));
    }
    assert(problems_view(out@) =~= start + found);
}

fn check_target(e: &Endpoint, k: usize, out: &mut Vec<Problem>)
    requires
        k < e.keys@.len(),
    ensures
        problems_view(final(out)@) == problems_view(old(out)@) + target_findings(e@, k as int),
{
    let mut j: usize = 0;
    while j < k
        invariant
            j <= k < e.keys@.len(),
            out@ == old(out)@,
            earlier_same_target(e@, k as int, 0) == earlier_same_target(e@, k as int, j as int),
        decreases k - j,
    {
        if e.keys[j].target.same(&e.keys[k].target) {
            let first: u8 = e.keys[j].slot;
            let mut m = quoted(&e.id);
            m.append("' points keys ");
            push_decimal(&mut m, first as u64);
            m.append(" and ");
            push_decimal(&mut m, e.keys[k].slot as u64);
            m.append(
                " at the same target; mix-minus subtracts each key's own contribution only, so this endpoint would hear itself back through the other key",
            );
            note(
                out,
                Problem::error(
                    ProblemKind::DuplicateKeyTarget {
                        endpoint: e.id.clone(),
                        slots: (first, e.keys[k].slot),
                    },
                    m,
                ),
            );
            return;
        }
        j += 1;
    }
    proof {
        lemma_add_nothing(problems_view(out@));
    }
}

/// Whether an endpoint has a direct key to the other.
fn has_call(e: &Endpoint, other: &EndpointId) -> (r: bool)
    ensures
        r == calls(e@, other@),
{
    let mut k: usize = 0;
    while k < e.keys.len()
        invariant
            k <= e.keys.len(),
            forall|i: int| 0 <= i < k ==> #[trigger] e@.keys[i].target != TargetView::Direct(other@),
        decreases e.keys.len() - k,
    {
        if e.keys[k].target.is_direct_to(other) {
            assert(e@.keys[k as int].target == TargetView::Direct(other@));
            return true;
        }
        k += 1;
    }
    false
}

impl Config {
    /// Check the config for anything that would break the routing table or surprise the
    /// operator: errors first, then warnings, each in the order of the checks.
    pub fn validate(&self) -> (r: Vec<Problem>)
        ensures
            problems_view(r@) == ranked_findings(self@),
    {
        let mut found: Vec<Problem> = Vec::new();
        proof {
            assert(problems_view(found@) =~= Seq::<ProblemView>::empty());
        }
        self.check_system(&mut found);
        self.check_unique_ids(&mut found);
        self.check_keys(&mut found);
        self.check_reciprocity(&mut found);
        self.check_population(&mut found);
        assert(problems_view(found@) =~= findings(self@));
        let mut out: Vec<Problem> = Vec::new();
        select(&found, Severity::Error, &mut out);
        select(&found, Severity::Warning, &mut out);
        assert(problems_view(out@) =~= ranked_findings(self@));
        out
    }

    /// True if nothing that validation finds is an error.
    pub fn is_valid(&self) -> (r: bool)
        ensures
            r == (errors(self@).len() == 0),
            r == coherent(self@),
    {
        let problems = self.validate();
        proof {
            lemma_errors_first(self@);
            lemma_coherent(self@);
            let ranked = ranked_findings(self@);
            assert(problems@.len() == ranked.len());
            assert(ranked.len() == errors(self@).len() + findings(self@).filter(is_warning()).len());
            if problems@.len() > 0 {
                assert(problems_view(problems@)[0] == problems@[0]@);
                assert(ranked[0].severity == problems@[0].severity);
            }
        }
        !(problems.len() > 0 && matches!(problems[0].severity, Severity::Error))
    }

    fn check_system(&self, out: &mut Vec<Problem>)
        ensures
            problems_view(final(out)@) == problems_view(old(out)@) + system_findings(self@.system),
    {
        let rate: u32 = self.system.sample_rate;
        let ptime: u32 = self.system.ptime_samples;
        let ghost start = problems_view(out@);
        if !(rate == 44_100 || rate == 48_000 || rate == 96_000) {
            let mut m = "sample rate ".to_owned();
            push_decimal(&mut m, rate as u64);
            m.append(
                " is not one an AES67 device is required to support; use 48000 unless the whole system is deliberately elsewhere",
            );
            note(out, Problem::error(ProblemKind::UnsupportedSampleRate(rate), m));
        }
        if ptime == 0 || rate % ptime != 0 {
            let mut m = "packet time of ".to_owned();
            push_decimal(&mut m, ptime as u64);
            m.append(" samples does not divide the ");
            push_decimal(&mut m, rate as u64);
            m.append(" Hz sample rate evenly, so one engine block cannot be one RTP packet");
            note(
                out,
                Problem::error(
                    ProblemKind::PtimeNotWholeMilliseconds { ptime, sample_rate: rate },
                    m,
                ),
            );
        }
        assert(problems_view(out@) =~= start + system_findings(self@.system));
    }

    fn check_unique_ids(&self, out: &mut Vec<Problem>)
        ensures
            problems_view(final(out)@) == problems_view(old(out)@) + gather(
                self@.endpoints.len() as int,
                endpoint_id_findings(self@),
            ) + gather(self@.partylines.len() as int, partyline_id_findings(self@)),
    {
        let ghost start = problems_view(out@);
        let ghost c = self@;
        let mut i: usize = 0;
        proof {
            lemma_add_nothing(start);
        }
        while i < self.endpoints.len()
            invariant
                i <= self.endpoints.len(),
                c == self@,
                problems_view(out@) == start + gather(i as int, endpoint_id_findings(c)),
            decreases self.endpoints.len() - i,
        {
            let mut seen = false;
            let mut j: usize = 0;
            while j < i
                invariant
                    j <= i < self.endpoints.len(),
                    c == self@,
                    seen == (exists|x: int| 0 <= x < j && #[trigger] c.endpoints[x].id == c.endpoints[i as int].id),
                decreases i - j,
            {
                if self.endpoints[j].id.same(&self.endpoints[i].id) {
                    assert(c.endpoints[j as int].id == c.endpoints[i as int].id);
                    seen = true;
                }
                j += 1;
            }
            if seen {
                let mut m = "two endpoints share the id '".to_owned();
                m.append(self.endpoints[i].id.as_str());
                m.append("'");
                note(
                    out,
                    Problem::error(ProblemKind::DuplicateEndpointId(self.endpoints[i].id.clone()), m),
                );
            }
            assert(problems_view(out@) =~= start + gather(i + 1, endpoint_id_findings(c)));
            i += 1;
        }
        let ghost middle = problems_view(out@);
        let mut a: usize = 0;
        proof {
            lemma_add_nothing(middle);
        }
        while a < self.partylines.len()
            invariant
                a <= self.partylines.len(),
                c == self@,
                problems_view(out@) == middle + gather(a as int, partyline_id_findings(c)),
            decreases self.partylines.len() - a,
        {
            let mut seen = false;
            let mut j: usize = 0;
            while j < a
                invariant
                    j <= a < self.partylines.len(),
                    c == self@,
                    seen == (exists|x: int| 0 <= x < j && #[trigger] c.partylines[x].id == c.partylines[a as int].id),
                decreases a - j,
            {
                if self.partylines[j].id.same(&self.partylines[a].id) {
                    assert(c.partylines[j as int].id == c.partylines[a as int].id);
                    seen = true;
                }
                j += 1;
            }
            if seen {
                let mut m = "two partylines share the id '".to_owned();
                m.append(self.partylines[a].id.as_str());
                m.append("'");
                note(
                    out,
                    Problem::error(ProblemKind::DuplicatePartylineId(self.partylines[a].id.clone()), m),
                );
            }
            assert(problems_view(out@) =~= middle + gather(a + 1, partyline_id_findings(c)));
            a += 1;
        }
    }

    fn check_reference(&self, e: &Endpoint, k: usize, out: &mut Vec<Problem>)
        requires
            k < e.keys@.len(),
        ensures
            problems_view(final(out)@) == problems_view(old(out)@) + reference_findings(self@, e@, k as int),
    {
        let slot: u8 = e.keys[k].slot;
        match &e.keys[k].target {
            KeyTarget::Partyline(pid) => {
                if self.partyline(pid).is_none() {
                    let mut m = quoted(&e.id);
                    m.append("' key ");
                    push_decimal(&mut m, slot as u64);
                    m.append(" targets unknown partyline '");
                    m.append(pid.as_str());
                    m.append("'");
                    note(
                        out,
                        Problem::error(
                            ProblemKind::UnknownPartyline {
                                endpoint: e.id.clone(),
                                slot,
                                target: pid.clone(),
                            },
                            m,
                        ),
                    );
                }
            },
            KeyTarget::Direct(eid) => {
                if eid.same(&e.id) {
                    let mut m = quoted(&e.id);
                    m.append("' key ");
                    push_decimal(&mut m, slot as u64);
                    m.append(" is a direct connection to itself");
                    note(
                        out,
                        Problem::error(ProblemKind::DirectToSelf { endpoint: e.id.clone(), slot }, m),
                    );
                } else if self.endpoint(eid).is_none() {
                    let mut m = quoted(&e.id);
                    m.append("' key ");
                    push_decimal(&mut m, slot as u64);
                    m.append(" targets unknown endpoint '");
                    m.append(eid.as_str());
                    m.append("'");
                    note(
                        out,
                        Problem::error(
                            ProblemKind::UnknownEndpoint {
                                endpoint: e.id.clone(),
                                slot,
                                target: eid.clone(),
                            },
                            m,
                        ),
                    );
                }
            },
        }
        assert(problems_view(out@) =~= problems_view(old(out)@) + reference_findings(self@, e@, k as int));
    }

    fn check_keys(&self, out: &mut Vec<Problem>)
        ensures
            problems_view(final(out)@) == problems_view(old(out)@) + gather(
                self@.endpoints.len() as int,
                keys_findings(self@),
            ),
    {
        let ghost start = problems_view(out@);
        let ghost c = self@;
        let mut i: usize = 0;
        proof {
            lemma_add_nothing(start);
        }
        while i < self.endpoints.len()
            invariant
                i <= self.endpoints.len(),
                c == self@,
                problems_view(out@) == start + gather(i as int, keys_findings(c)),
            decreases self.endpoints.len() - i,
        {
            let e = &self.endpoints[i];
            let ghost row = problems_view(out@);
            let ghost many = found_if(
                e@.keys.len() > MAX_KEYS,
                error_view(
                    KindView::TooManyKeys { endpoint: e@.id, count: e@.keys.len() },
                    "'"@ + e@.id + "' has "@ + decimal(e@.keys.len()) + " keys; the limit is "@ + decimal(
                        MAX_KEYS as nat,
                    ) + ", one per receivable stream"@,
                ),
            );
            if e.keys.len() > MAX_KEYS {
                let mut m = quoted(&e.id);
                m.append("' has ");
                push_decimal(&mut m, e.keys.len() as u64);
                m.append(" keys; the limit is ");
                push_decimal(&mut m, MAX_KEYS as u64);
                m.append(", one per receivable stream");
                note(
                    out,
                    Problem::error(
                        ProblemKind::TooManyKeys { endpoint: e.id.clone(), count: e.keys.len() },
                        m,
                    ),
                );
            }
            assert(problems_view(out@) =~= row + many);
            let mut k: usize = 0;
            proof {
                lemma_add_nothing(row + many);
            }
            while k < e.keys.len()
                invariant
                    k <= e.keys.len(),
                    c == self@,
                    problems_view(out@) == row + many + gather(k as int, key_findings(c, e@)),
                decreases e.keys.len() - k,
            {
                check_slot(e, k, out);
                check_target(e, k, out);
                self.check_reference(e, k, out);
                assert(problems_view(out@) =~= row + many + gather(k + 1, key_findings(c, e@)));
                k += 1;
            }
            proof {
                let f = keys_findings(c);
                assert(f(i as int) == many + gather(e@.keys.len() as int, key_findings(c, e@)));
                assert(problems_view(out@) =~= start + gather(i + 1, f));
            }
            i += 1;
        }
    }

    /// A direct key only carries audio if the other end has one pointing back.
    fn check_reciprocity(&self, out: &mut Vec<Problem>)
        ensures
            problems_view(final(out)@) == problems_view(old(out)@) + gather(
                self@.endpoints.len() as int,
                reciprocity_findings(self@),
            ),
    {
        let ghost start = problems_view(out@);
        let ghost c = self@;
        let mut i: usize = 0;
        proof {
            lemma_add_nothing(start);
        }
        while i < self.endpoints.len()
            invariant
                i <= self.endpoints.len(),
                c == self@,
                problems_view(out@) == start + gather(i as int, reciprocity_findings(c)),
            decreases self.endpoints.len() - i,
        {
            let e = &self.endpoints[i];
            let ghost row = problems_view(out@);
            let mut k: usize = 0;
            proof {
                lemma_add_nothing(row);
            }
            while k < e.keys.len()
                invariant
                    k <= e.keys.len(),
                    c == self@,
                    problems_view(out@) == row + gather(k as int, one_way_findings(c, e@)),
                decreases e.keys.len() - k,
            {
                match &e.keys[k].target {
                    KeyTarget::Partyline(_) => {},
                    KeyTarget::Direct(other_id) => {
                        match self.endpoint(other_id) {
                            None => {},
                            Some(other) => {
                                if !has_call(other, &e.id) {
                                    let mut m = quoted(&e.id);
                                    m.append("' has a direct key to '");
                                    m.append(other_id.as_str());
                                    m.append("' but '");
                                    m.append(other_id.as_str());
                                    m.append("' has none back, so '");
                                    m.append(e.id.as_str());
                                    m.append("' can hear it and cannot be heard by it");
                                    note(
                                        out,
                                        Problem::warning(
                                            ProblemKind::OneWayDirect {
                                                from: e.id.clone(),
                                                to: other_id.clone(),
                                            },
                                            m,
                                        ),
                                    );
                                }
                            },
                        }
                    },
                }
                assert(problems_view(out@) =~= row + gather(k + 1, one_way_findings(c, e@)));
                k += 1;
            }
            proof {
                let f = reciprocity_findings(c);
                assert(f(i as int) == gather(e@.keys.len() as int, one_way_findings(c, e@)));
                assert(problems_view(out@) =~= start + gather(i + 1, f));
            }
            i += 1;
        }
    }

    fn check_population(&self, out: &mut Vec<Problem>)
        ensures
            problems_view(final(out)@) == problems_view(old(out)@) + gather(
                self@.partylines.len() as int,
                member_findings(self@),
            ) + gather(self@.endpoints.len() as int, voice_findings(self@)),
    {
        let ghost start = problems_view(out@);
        let ghost c = self@;
        let mut i: usize = 0;
        proof {
            lemma_add_nothing(start);
        }
        while i < self.partylines.len()
            invariant
                i <= self.partylines.len(),
                c == self@,
                problems_view(out@) == start + gather(i as int, member_findings(c)),
            decreases self.partylines.len() - i,
        {
            let p = &self.partylines[i];
            let members = self.members_of(&p.id);
            if members.len() == 0 {
                let mut m = "partyline '".to_owned();
                m.append(p.id.as_str());
                m.append("' has no endpoints assigned to it");
                note(out, Problem::warning(ProblemKind::EmptyPartyline(p.id.clone()), m));
            } else if members.len() == 1 {
                let mut m = "partyline '".to_owned();
                m.append(p.id.as_str());
                m.append("' has one member, which will only ever hear silence");
                note(out, Problem::warning(ProblemKind::LonelyPartyline(p.id.clone()), m));
            }
            proof {
                assert(c.members(c.partylines[i as int].id).len() == members@.len());
                assert(problems_view(out@) =~= start + gather(i + 1, member_findings(c)));
            }
            i += 1;
        }
        let ghost middle = problems_view(out@);
        let mut a: usize = 0;
        proof {
            lemma_add_nothing(middle);
        }
        while a < self.endpoints.len()
            invariant
                a <= self.endpoints.len(),
                c == self@,
                problems_view(out@) == middle + gather(a as int, voice_findings(c)),
            decreases self.endpoints.len() - a,
        {
            let e = &self.endpoints[a];
            if e.keys.len() == 0 {
                let mut m = quoted(&e.id);
                m.append("' has no keys, so it is connected to nothing");
                note(out, Problem::warning(ProblemKind::EndpointWithNoKeys(e.id.clone()), m));
            } else if !can_speak(e) {
                let mut m = quoted(&e.id);
                m.append("' has only listen-only keys and can never be heard");
                note(out, Problem::warning(ProblemKind::EndpointCannotTalk(e.id.clone()), m));
            }
            assert(problems_view(out@) =~= middle + gather(a + 1, voice_findings(c)));
            a += 1;
        }
    }
}

/// Whether some key of the endpoint can talk.
fn can_speak(e: &Endpoint) -> (r: bool)
    ensures
        r == has_talk_key(e@),
{
    let mut k: usize = 0;
    while k < e.keys.len()
        invariant
            k <= e.keys.len(),
            forall|i: int| 0 <= i < k ==> #[trigger] e@.keys[i].talk_mode == TalkMode::ListenOnly,
        decreases e.keys.len() - k,
    {
        if e.keys[k].talk_mode.can_talk() {
            assert(e@.keys[k as int].talk_mode != TalkMode::ListenOnly);
            return true;
        }
        k += 1;
    }
    false
}

pub open spec fn has_severity(severity: Severity) -> spec_fn(ProblemView) -> bool {
    if severity == Severity::Error {
        is_error()
    } else {
        is_warning()
    }
}

/// Copies the findings of one severity, in order.
fn select(found: &Vec<Problem>, severity: Severity, out: &mut Vec<Problem>)
    ensures
        problems_view(final(out)@) == problems_view(old(out)@) + problems_view(found@).filter(
            has_severity(severity),
        ),
{
    let ghost all = problems_view(found@);
    let ghost start = problems_view(out@);
    let ghost p = has_severity(severity);
    let mut i: usize = 0;
    proof {
        reveal(Seq::filter);
        assert(all.take(0) =~= Seq::<ProblemView>::empty());
        lemma_add_nothing(start);
    }
    while i < found.len()
        invariant
            i <= found.len(),
            all == problems_view(found@),
            p == has_severity(severity),
            problems_view(out@) == start + all.take(i as int).filter(p),
        decreases found.len() - i,
    {
        proof {
            assert(all.take(i + 1) =~= all.take(i as int).push(all[i as int]));
            all.take(i as int).lemma_filter_push(all[i as int], p);
        }
        if found[i].severity == severity {
            note(out, found[i].clone());
        }
        assert(problems_view(out@) =~= start + all.take(i + 1).filter(p));
        i += 1;
    }
    assert(all.take(i as int) =~= all);
}

} // verus!
