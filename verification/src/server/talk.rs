//! Who means to talk.
//!
//! A rebuilt engine starts with every key released. The intent kept here is keyed by
//! endpoint id and slot, names that survive a rebuild.

use vstd::prelude::*;
use vstd::string::StringExecFns;

use crate::config::model::{Config, ConfigView, EndpointId};
use crate::text::{
    decimal, lemma_text_order_total, lemma_text_order_transitive, order_of, push_decimal, text_before, Order,
};

verus! {

/// One key's talk intent, as a mathematical value.
pub struct IntentView {
    pub endpoint: Seq<char>,
    pub slot: u8,
    pub on: bool,
}

struct Intent {
    endpoint: String,
    slot: u8,
    on: bool,
}

impl View for Intent {
    type V = IntentView;

    closed spec fn view(&self) -> IntentView {
        IntentView { endpoint: self.endpoint@, slot: self.slot, on: self.on }
    }
}

/// The talk intent of every key that was ever pressed, ordered by endpoint and slot.
pub struct TalkMap {
    intents: Vec<Intent>,
}

impl View for TalkMap {
    type V = Seq<IntentView>;

    closed spec fn view(&self) -> Seq<IntentView> {
        Seq::new(self.intents@.len(), |i: int| self.intents@[i]@)
    }
}

/// The order of keys: by endpoint, then by slot.
pub open spec fn key_before(a: Seq<char>, a_slot: u8, b: Seq<char>, b_slot: u8) -> bool {
    text_before(a, b) || (a == b && a_slot < b_slot)
}

pub open spec fn intent_before(a: IntentView, b: IntentView) -> bool {
    key_before(a.endpoint, a.slot, b.endpoint, b.slot)
}

/// Intents in strictly ascending order.
pub open spec fn in_order(s: Seq<IntentView>) -> bool {
    forall|i: int, j: int| 0 <= i < j < s.len() ==> intent_before(#[trigger] s[i], #[trigger] s[j])
}

/// The first position, from `from` on, that does not come before a key.
pub open spec fn place_of(s: Seq<IntentView>, endpoint: Seq<char>, slot: u8, from: int) -> int
    decreases s.len() - from,
{
    if from < 0 || from >= s.len() || !key_before(s[from].endpoint, s[from].slot, endpoint, slot) {
        from
    } else {
        place_of(s, endpoint, slot, from + 1)
    }
}

/// Whether position `i` holds a key.
pub open spec fn holds_key(s: Seq<IntentView>, i: int, endpoint: Seq<char>, slot: u8) -> bool {
    0 <= i < s.len() && s[i].endpoint == endpoint && s[i].slot == slot
}

/// The intents with one of them set.
pub open spec fn put(s: Seq<IntentView>, x: IntentView) -> Seq<IntentView> {
    let i = place_of(s, x.endpoint, x.slot, 0);
    if holds_key(s, i, x.endpoint, x.slot) {
        s.update(i, x)
    } else {
        s.insert(i, x)
    }
}

/// The intent of a key, where there is one.
pub open spec fn intent_of(s: Seq<IntentView>, endpoint: Seq<char>, slot: u8) -> Option<bool> {
    let i = place_of(s, endpoint, slot, 0);
    if holds_key(s, i, endpoint, slot) {
        Some(s[i].on)
    } else {
        None
    }
}

/// Whether a configuration has the key that an intent is for.
pub open spec fn still_there(c: ConfigView) -> spec_fn(IntentView) -> bool {
    |t: IntentView| key_exists(c, t)
}

pub open spec fn key_exists(c: ConfigView, t: IntentView) -> bool {
    c.endpoint_at(t.endpoint) matches Some(i) && c.endpoints[i].slot_used(t.slot as int)
}

pub open spec fn is_on() -> spec_fn(IntentView) -> bool {
    |t: IntentView| t.on
}

/// A key as it is shown.
pub open spec fn key_label(endpoint: Seq<char>, slot: u8) -> Seq<char> {
    endpoint + ":"@ + decimal(slot as nat)
}

/// The keys that are held, as they are shown.
pub open spec fn talking(s: Seq<IntentView>) -> Seq<Seq<char>> {
    let on = s.filter(is_on());
    Seq::new(on.len(), |i: int| key_label(on[i].endpoint, on[i].slot))
}

/// The texts of a list.
pub open spec fn labels_view(v: Seq<String>) -> Seq<Seq<char>> {
    Seq::new(v.len(), |i: int| v[i]@)
}

/// A key as it is shown.
pub fn label(endpoint: &str, slot: u8) -> (r: String)
    ensures
        r@ == key_label(endpoint@, slot),
{
    let mut out = String::from_str(endpoint);
    out.append(":");
    push_decimal(&mut out, slot as u64);
    out
}

/// A place found lies inside, and everything before it comes before the key.
pub proof fn lemma_place(s: Seq<IntentView>, endpoint: Seq<char>, slot: u8, from: int)
    requires
        0 <= from <= s.len(),
    ensures
        from <= place_of(s, endpoint, slot, from) <= s.len(),
        forall|i: int|
            from <= i < place_of(s, endpoint, slot, from) ==> key_before(
                (#[trigger] s[i]).endpoint,
                s[i].slot,
                endpoint,
                slot,
            ),
        place_of(s, endpoint, slot, from) < s.len() ==> !key_before(
            s[place_of(s, endpoint, slot, from)].endpoint,
            s[place_of(s, endpoint, slot, from)].slot,
            endpoint,
            slot,
        ),
    decreases s.len() - from,
{
    if from < s.len() && key_before(s[from].endpoint, s[from].slot, endpoint, slot) {
        lemma_place(s, endpoint, slot, from + 1);
    }
}

/// The order of keys is total and transitive.
proof fn lemma_key_order(a: IntentView, b: IntentView, c: IntentView)
    ensures
        intent_before(a, b) || intent_before(b, a) || (a.endpoint == b.endpoint && a.slot == b.slot),
        !(intent_before(a, b) && intent_before(b, a)),
        intent_before(a, b) ==> !(a.endpoint == b.endpoint && a.slot == b.slot),
        intent_before(a, b) && intent_before(b, c) ==> intent_before(a, c),
{
    lemma_text_order_total(a.endpoint, b.endpoint);
    lemma_text_order_total(b.endpoint, c.endpoint);
    if text_before(a.endpoint, b.endpoint) && text_before(b.endpoint, c.endpoint) {
        lemma_text_order_transitive(a.endpoint, b.endpoint, c.endpoint);
    }
}

/// Setting an intent keeps the order.
pub proof fn lemma_put_in_order(s: Seq<IntentView>, x: IntentView)
    requires
        in_order(s),
    ensures
        in_order(put(s, x)),
{
    let i = place_of(s, x.endpoint, x.slot, 0);
    lemma_place(s, x.endpoint, x.slot, 0);
    let r = put(s, x);
    assert forall|a: int, b: int| 0 <= a < b < r.len() implies intent_before(#[trigger] r[a], #[trigger] r[b]) by {
        if holds_key(s, i, x.endpoint, x.slot) {
            assert(intent_before(s[a], s[b]));
        } else {
            let a0 = if a < i {
                a
            } else {
                a - 1
            };
            let b0 = if b < i {
                b
            } else {
                b - 1
            };
            if a != i && b != i {
                assert(r[a] == s[a0] && r[b] == s[b0]);
                assert(intent_before(s[a0], s[b0]));
            } else if b == i {
                assert(r[a] == s[a]);
            } else {
                assert(r[b] == s[b0]);
                lemma_key_order(s[i], x, s[b0]);
                if b0 > i {
                    assert(intent_before(s[i], s[b0]));
                    lemma_key_order(x, s[i], s[b0]);
                }
            }
        }
    }
}

/// In an ordered list a key stands at its place or nowhere.
pub proof fn lemma_key_at_its_place(s: Seq<IntentView>, k: int, endpoint: Seq<char>, slot: u8)
    requires
        in_order(s),
        holds_key(s, k, endpoint, slot),
    ensures
        place_of(s, endpoint, slot, 0) == k,
{
    let i = place_of(s, endpoint, slot, 0);
    lemma_place(s, endpoint, slot, 0);
    let x = IntentView { endpoint, slot, on: true };
    if k < i {
        lemma_key_order(s[k], x, x);
        assert(key_before(s[k].endpoint, s[k].slot, endpoint, slot));
    } else if i < k {
        assert(intent_before(s[i], s[k]));
    }
}

/// An intent that was set is remembered, and every other one stays as it was.
pub proof fn law_intent_is_remembered(s: Seq<IntentView>, x: IntentView, endpoint: Seq<char>, slot: u8)
    requires
        in_order(s),
    ensures
        intent_of(put(s, x), x.endpoint, x.slot) == Some(x.on),
        endpoint != x.endpoint || slot != x.slot ==> intent_of(put(s, x), endpoint, slot) == intent_of(
            s,
            endpoint,
            slot,
        ),
{
    let i = place_of(s, x.endpoint, x.slot, 0);
    lemma_place(s, x.endpoint, x.slot, 0);
    let r = put(s, x);
    lemma_put_in_order(s, x);
    assert(r[i] == x);
    lemma_key_at_its_place(r, i, x.endpoint, x.slot);
    if endpoint != x.endpoint || slot != x.slot {
        let k = place_of(s, endpoint, slot, 0);
        let m = place_of(r, endpoint, slot, 0);
        if holds_key(s, k, endpoint, slot) {
            let k1 = if holds_key(s, i, x.endpoint, x.slot) || k < i {
                k
            } else {
                k + 1
            };
            assert(r[k1] == s[k]);
            lemma_key_at_its_place(r, k1, endpoint, slot);
        } else if holds_key(r, m, endpoint, slot) {
            let m0 = if holds_key(s, i, x.endpoint, x.slot) || m < i {
                m
            } else {
                m - 1
            };
            assert(s[m0] == r[m]);
            lemma_key_at_its_place(s, m0, endpoint, slot);
        }
    }
}

impl TalkMap {
    pub closed spec fn wf(&self) -> bool {
        in_order(self@)
    }

    /// What the invariant says of the mathematical value.
    pub proof fn lemma_wf(&self)
        requires
            self.wf(),
        ensures
            in_order(self@),
    {
    }

    pub fn new() -> (r: Self)
        ensures
            r.wf(),
            r@ == Seq::<IntentView>::empty(),
    {
        let r = TalkMap { intents: Vec::new() };
        assert(r@ =~= Seq::<IntentView>::empty());
        r
    }

    /// Remember what a key is meant to do.
    pub fn set(&mut self, endpoint: &str, slot: u8, on: bool)
        requires
            old(self).wf(),
        ensures
            final(self).wf(),
            final(self)@ == put(old(self)@, IntentView { endpoint: endpoint@, slot, on }),
    {
        let ghost s = self@;
        let ghost x = IntentView { endpoint: endpoint@, slot, on };
        proof {
            lemma_put_in_order(s, x);
            lemma_place(s, endpoint@, slot, 0);
        }
        let mut i: usize = 0;
        let mut found = false;
        while i < self.intents.len()
            invariant_except_break
                !found,
            invariant
                i <= self.intents@.len(),
                self@ == s,
                x == (IntentView { endpoint: endpoint@, slot, on }),
                place_of(s, endpoint@, slot, 0) == place_of(s, endpoint@, slot, i as int),
            ensures
                i <= self.intents@.len(),
                self@ == s,
                place_of(s, endpoint@, slot, 0) == i,
                found == holds_key(s, i as int, endpoint@, slot),
            decreases self.intents@.len() - i,
        {
            proof {
                assert(s[i as int] == self.intents@[i as int]@);
                lemma_text_order_total(s[i as int].endpoint, endpoint@);
            }
            match order_of(self.intents[i].endpoint.as_str(), endpoint) {
                Order::Before => {},
                Order::Same => {
                    if self.intents[i].slot >= slot {
                        found = self.intents[i].slot == slot;
                        break;
                    }
                },
                Order::After => {
                    break;
                },
            }
            i += 1;
        }
        let ghost before = self.intents@;
        let intent = Intent { endpoint: String::from_str(endpoint), slot, on };
        if found {
            self.intents.set(i, intent);
            assert(self@ =~= put(s, x));
        } else {
            self.intents.insert(i, intent);
            assert(self@ =~= put(s, x));
        }
    }

    /// Forget everything.
    pub fn clear(&mut self)
        ensures
            final(self).wf(),
            final(self)@ == Seq::<IntentView>::empty(),
    {
        self.intents = Vec::new();
        assert(self@ =~= Seq::<IntentView>::empty());
    }

    pub fn len(&self) -> (r: usize)
        ensures
            r == self@.len(),
    {
        self.intents.len()
    }

    /// Intent `i`.
    pub fn get(&self, i: usize) -> (r: (&str, u8, bool))
        requires
            i < self@.len(),
        ensures
            r.0@ == self@[i as int].endpoint,
            r.1 == self@[i as int].slot,
            r.2 == self@[i as int].on,
    {
        (self.intents[i].endpoint.as_str(), self.intents[i].slot, self.intents[i].on)
    }

    /// Drop the intent for keys that a configuration does not have.
    pub fn retain(&mut self, config: &Config)
        requires
            old(self).wf(),
        ensures
            final(self).wf(),
            final(self)@ == old(self)@.filter(still_there(config@)),
    {
        let ghost s = self@;
        let ghost p = still_there(config@);
        let mut kept: Vec<Intent> = Vec::new();
        let mut i: usize = 0;
        proof {
            reveal(Seq::filter);
            assert(intents_view(kept@) =~= s.take(0).filter(p));
        }
        while i < self.intents.len()
            invariant
                i <= self.intents@.len(),
                self@ == s,
                p == still_there(config@),
                intents_view(kept@) == s.take(i as int).filter(p),
            decreases self.intents@.len() - i,
        {
            let id = EndpointId::new(self.intents[i].endpoint.as_str());
            let slot: u8 = self.intents[i].slot;
            proof {
                assert(s[i as int] == self.intents@[i as int]@);
                assert(s.take(i + 1) =~= s.take(i as int).push(s[i as int]));
                s.take(i as int).lemma_filter_push(s[i as int], p);
            }
            let there = match config.endpoint(&id) {
                Some(e) => e.key(slot).is_some(),
                None => false,
            };
            assert(there == key_exists(config@, s[i as int]));
            let ghost before = kept@;
            if there {
                let t = Intent { endpoint: self.intents[i].endpoint.clone(), slot, on: self.intents[i].on };
                kept.push(t);
                assert(intents_view(kept@) =~= intents_view(before).push(s[i as int]));
            }
            i += 1;
        }
        proof {
            assert(s.take(i as int) =~= s);
            lemma_filter_in_order(s, p);
        }
        self.intents = kept;
        assert(self@ =~= s.filter(p));
    }

    /// The keys that are held, as they are shown.
    pub fn talking(&self) -> (r: Vec<String>)
        ensures
            labels_view(r@) == talking(self@),
    {
        let ghost s = self@;
        let ghost p = is_on();
        let mut out: Vec<String> = Vec::new();
        let mut i: usize = 0;
        proof {
            reveal(Seq::filter);
            assert(labels_view(out@) =~= talking(s.take(0)));
        }
        while i < self.intents.len()
            invariant
                i <= self.intents@.len(),
                s == self@,
                p == is_on(),
                labels_view(out@) == talking(s.take(i as int)),
            decreases self.intents@.len() - i,
        {
            proof {
                assert(s[i as int] == self.intents@[i as int]@);
                assert(s.take(i + 1) =~= s.take(i as int).push(s[i as int]));
                s.take(i as int).lemma_filter_push(s[i as int], p);
            }
            let ghost before = out@;
            if self.intents[i].on {
                let text = label(self.intents[i].endpoint.as_str(), self.intents[i].slot);
                out.push(text);
                assert(labels_view(out@) =~= labels_view(before).push(text@));
                assert(talking(s.take(i + 1)) =~= talking(s.take(i as int)).push(text@));
            } else {
                assert(talking(s.take(i + 1)) =~= talking(s.take(i as int)));
            }
            i += 1;
        }
        assert(s.take(i as int) =~= s);
        out
    }
}

spec fn intents_view(v: Seq<Intent>) -> Seq<IntentView> {
    Seq::new(v.len(), |i: int| v[i]@)
}

/// What a filter keeps stays in order.
pub proof fn lemma_filter_in_order(s: Seq<IntentView>, p: spec_fn(IntentView) -> bool)
    requires
        in_order(s),
    ensures
        in_order(s.filter(p)),
        forall|k: int| 0 <= k < s.filter(p).len() ==> s.contains(#[trigger] s.filter(p)[k]),
    decreases s.len(),
{
    reveal(Seq::filter);
    if s.len() > 0 {
        let short = s.drop_last();
        assert forall|i: int, j: int| 0 <= i < j < short.len() implies intent_before(
            #[trigger] short[i],
            #[trigger] short[j],
        ) by {
            assert(short[i] == s[i] && short[j] == s[j]);
        }
        lemma_filter_in_order(short, p);
        assert(s =~= short.push(s.last()));
        short.lemma_filter_push(s.last(), p);
        let r = s.filter(p);
        let r0 = short.filter(p);
        assert forall|k: int| 0 <= k < r.len() implies s.contains(#[trigger] r[k]) by {
            if k < r0.len() {
                assert(r[k] == r0[k]);
                let m = choose|m: int| 0 <= m < short.len() && short[m] == r0[k];
                assert(s[m] == r[k]);
            } else {
                assert(s[s.len() - 1] == r[k]);
            }
        }
        assert forall|i: int, j: int| 0 <= i < j < r.len() implies intent_before(#[trigger] r[i], #[trigger] r[j]) by {
            if j < r0.len() {
                assert(r[i] == r0[i] && r[j] == r0[j]);
            } else {
                assert(r[i] == r0[i]);
                let m = choose|m: int| 0 <= m < short.len() && short[m] == r0[i];
                assert(s[m] == r[i]);
                assert(intent_before(s[m], s[s.len() - 1]));
            }
        }
    }
}

/// A rebuild keeps the intent for every key that still exists, and drops the rest.
pub proof fn law_intent_survives_where_the_key_does(
    s: Seq<IntentView>,
    c: ConfigView,
    endpoint: Seq<char>,
    slot: u8,
)
    requires
        in_order(s),
    ensures
        ({
            let kept = intent_of(s.filter(still_there(c)), endpoint, slot);
            if key_exists(c, IntentView { endpoint, slot, on: true }) {
                kept == intent_of(s, endpoint, slot)
            } else {
                kept is None
            }
        }),
{
    let p = still_there(c);
    let r = s.filter(p);
    lemma_filter_in_order(s, p);
    broadcast use Seq::lemma_filter_pred;

    let there = key_exists(c, IntentView { endpoint, slot, on: true });
    let i = place_of(s, endpoint, slot, 0);
    let m = place_of(r, endpoint, slot, 0);
    if holds_key(r, m, endpoint, slot) {
        assert(p(r[m]));
        assert(s.contains(r[m]));
        let k = choose|k: int| 0 <= k < s.len() && s[k] == r[m];
        lemma_key_at_its_place(s, k, endpoint, slot);
    } else if there && holds_key(s, i, endpoint, slot) {
        assert(p(s[i]));
        lemma_filter_contains(s, p, i);
        let k = choose|k: int| 0 <= k < r.len() && r[k] == s[i];
        lemma_key_at_its_place(r, k, endpoint, slot);
    }
}

/// What satisfies a filter is kept.
proof fn lemma_filter_contains(s: Seq<IntentView>, p: spec_fn(IntentView) -> bool, i: int)
    requires
        0 <= i < s.len(),
        p(s[i]),
    ensures
        s.filter(p).contains(s[i]),
    decreases s.len(),
{
    reveal(Seq::filter);
    let short = s.drop_last();
    assert(s =~= short.push(s.last()));
    short.lemma_filter_push(s.last(), p);
    let r = s.filter(p);
    if i < short.len() {
        lemma_filter_contains(short, p, i);
        let k = choose|k: int| 0 <= k < short.filter(p).len() && short.filter(p)[k] == short[i];
        assert(r[k] == s[i]);
    } else {
        assert(r[r.len() - 1] == s[i]);
    }
}

} // verus!
