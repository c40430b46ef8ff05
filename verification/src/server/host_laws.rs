//! What holds of the host across commands and rebuilds.

use vstd::prelude::*;

use crate::config::coherence::{coherent, coherent_keys};
use crate::config::model::{lemma_endpoint_position, ConfigView, TalkMode};
use crate::engine::laws::{
    law_compiled_is_wired, lemma_locate, lemma_stream_inside, lemma_wiring_kept, same_wires, wired,
};
use crate::engine::order::stream_of;
use crate::engine::plan::{
    compiled, compiled_at, key_compiled, lemma_stream_position, stream_position, EngineView, KeyRt,
};
use crate::sample::{exact, greater_is, larger, Sample};
use crate::server::host::{
    held, id_position, lemma_id_position, lemma_replayed_shape, rebuilt, rebuilt_from, replayed, HostView,
};
use crate::server::talk::{
    holds_key, in_order, intent_of, key_exists, law_intent_survives_where_the_key_does, lemma_filter_in_order,
    lemma_key_at_its_place, place_of, still_there, IntentView,
};

verus! {

/// Whether the last of the first `n` intents for a key says to talk.
spec fn on_among(talk: Seq<IntentView>, n: int, endpoint: Seq<char>, slot: u8) -> bool
    decreases n,
{
    if n <= 0 {
        false
    } else if talk[n - 1].endpoint == endpoint && talk[n - 1].slot == slot {
        talk[n - 1].on
    } else {
        on_among(talk, n - 1, endpoint, slot)
    }
}

proof fn lemma_on_among(talk: Seq<IntentView>, n: int, endpoint: Seq<char>, slot: u8)
    requires
        in_order(talk),
        0 <= n <= talk.len(),
    ensures
        on_among(talk, n, endpoint, slot) == ({
            let i = place_of(talk, endpoint, slot, 0);
            i < n && holds_key(talk, i, endpoint, slot) && talk[i].on
        }),
    decreases n,
{
    if n > 0 {
        lemma_on_among(talk, n - 1, endpoint, slot);
        if talk[n - 1].endpoint == endpoint && talk[n - 1].slot == slot {
            lemma_key_at_its_place(talk, n - 1, endpoint, slot);
        }
    }
}

/// In a compiled engine each key has a stream of its own, and is found there.
proof fn lemma_own_stream<S: Sample>(c: ConfigView, v: EngineView<S>, keys: Seq<KeyRt<S>>, i: int, k: int)
    requires
        coherent(c),
        compiled(c, v),
        0 <= i < c.endpoints.len(),
        0 <= k < c.endpoints[i].keys.len(),
        keys.len() == v.keys.len(),
        forall|s: int|
            0 <= s < v.keys.len() ==> (#[trigger] keys[s]).endpoint == v.keys[s].endpoint && keys[s].slot
                == v.keys[s].slot,
        0 <= stream_of(c.endpoints, i, k) < v.keys.len(),
    ensures
        stream_position(keys, i, c.endpoints[i].keys[k].slot, 0) == Some(stream_of(c.endpoints, i, k)),
{
    let rate = choose|rate: S| #[trigger] compiled_at(c, rate, v);
    let s = stream_of(c.endpoints, i, k);
    let slot = c.endpoints[i].keys[k].slot;
    assert(key_compiled(c, i, k, rate, v.keys[s]));
    assert(keys[s].endpoint == i && keys[s].slot == slot);
    lemma_stream_position(keys, i, slot, 0);
    let t = stream_position(keys, i, slot, 0)->0;
    let (j, m) = lemma_locate(c, t, c.endpoints.len() as int);
    let other = c.endpoints[j].keys[m];
    assert(key_compiled(c, j, m, rate, v.keys[t]));
    assert(keys[t].endpoint == v.keys[t].endpoint);
    assert(j == i);
    assert(coherent_keys(c, c.endpoints[i]));
    if m < k {
        assert(c.endpoints[i].keys[m].slot != c.endpoints[i].keys[k].slot);
    } else if k < m {
        assert(c.endpoints[i].keys[k].slot != c.endpoints[i].keys[m].slot);
    }
}

proof fn lemma_replayed_key<S: Sample>(
    c: ConfigView,
    fresh: EngineView<S>,
    talk: Seq<IntentView>,
    n: int,
    i: int,
    k: int,
)
    requires
        coherent(c),
        compiled(c, fresh),
        0 <= n <= talk.len(),
        0 <= i < c.endpoints.len(),
        0 <= k < c.endpoints[i].keys.len(),
    ensures
        ({
            let s = stream_of(c.endpoints, i, k);
            let key = c.endpoints[i].keys[k];
            &&& 0 <= s < fresh.keys.len()
            &&& replayed(fresh, talk, n).keys[s].talk_on == (key.talk_mode != TalkMode::ListenOnly && on_among(
                talk,
                n,
                c.endpoints[i].id,
                key.slot,
            ))
        }),
    decreases n,
{
    let rate = choose|rate: S| #[trigger] compiled_at(c, rate, fresh);
    let s = stream_of(c.endpoints, i, k);
    let key = c.endpoints[i].keys[k];
    let id = c.endpoints[i].id;
    lemma_stream_inside(c, i, k);
    assert(key_compiled(c, i, k, rate, fresh.keys[s]));
    if n > 0 {
        lemma_replayed_key(c, fresh, talk, n - 1, i, k);
        let w = replayed(fresh, talk, n - 1);
        let t = talk[n - 1];
        lemma_replayed_shape(fresh, talk, n - 1);
        lemma_own_stream(c, fresh, w.keys, i, k);
        assert(w.keys[s] == (KeyRt { talk_on: w.keys[s].talk_on, ..fresh.keys[s] }));
        assert(w.endpoint_ids == fresh.endpoint_ids);
        lemma_id_position(w.endpoint_ids, t.endpoint, 0);
        assert(fresh.endpoint_ids[i] == id);
        if let Some(e) = id_position(w.endpoint_ids, t.endpoint, 0) {
            assert(fresh.endpoint_ids[e] == c.endpoints[e].id);
            lemma_stream_position(w.keys, e, t.slot, 0);
            if t.endpoint == id {
                if e < i {
                    assert(c.endpoints[e].id != c.endpoints[i].id);
                } else if i < e {
                    assert(c.endpoints[i].id != c.endpoints[e].id);
                }
                assert(e == i);
            }
            if t.endpoint == id && t.slot == key.slot {
                assert(stream_position(w.keys, e, t.slot, 0) == Some(s));
            } else if let Some(p) = stream_position(w.keys, e, t.slot, 0) {
                assert(w.keys[p].endpoint == e && w.keys[p].slot == t.slot);
                assert(p != s);
            }
        } else {
            assert(t.endpoint != id);
        }
    }
}

/// After intents are applied to a freshly compiled engine, a key talks exactly where it can
/// and its intent says so.
pub proof fn law_intent_decides_who_talks<S: Sample>(
    c: ConfigView,
    fresh: EngineView<S>,
    talk: Seq<IntentView>,
    i: int,
    k: int,
)
    requires
        coherent(c),
        compiled(c, fresh),
        in_order(talk),
        0 <= i < c.endpoints.len(),
        0 <= k < c.endpoints[i].keys.len(),
    ensures
        ({
            let key = c.endpoints[i].keys[k];
            replayed(fresh, talk, talk.len() as int).keys[stream_of(c.endpoints, i, k)].talk_on == (key.talk_mode
                != TalkMode::ListenOnly && intent_of(talk, c.endpoints[i].id, key.slot) == Some(true))
        }),
{
    let key = c.endpoints[i].keys[k];
    lemma_replayed_key(c, fresh, talk, talk.len() as int, i, k);
    lemma_on_among(talk, talk.len() as int, c.endpoints[i].id, key.slot);
}

/// An edit drops no live talk key: after a rebuild every key that the configuration has
/// talks exactly where it can and was meant to before.
pub proof fn law_talk_survives_a_rebuild<S: Sample>(
    before: HostView<S>,
    c: ConfigView,
    after: HostView<S>,
    i: int,
    k: int,
)
    requires
        rebuilt(before, c, after),
        coherent(c),
        in_order(before.talk),
        0 <= i < c.endpoints.len(),
        0 <= k < c.endpoints[i].keys.len(),
    ensures
        ({
            let key = c.endpoints[i].keys[k];
            after.engine.keys[stream_of(c.endpoints, i, k)].talk_on == (key.talk_mode != TalkMode::ListenOnly
                && intent_of(before.talk, c.endpoints[i].id, key.slot) == Some(true))
        }),
{
    let fresh = choose|fresh: EngineView<S>| #[trigger] rebuilt_from(before, c, fresh, after);
    let kept = before.talk.filter(still_there(c));
    let key = c.endpoints[i].keys[k];
    let id = c.endpoints[i].id;
    lemma_filter_in_order(before.talk, still_there(c));
    law_intent_decides_who_talks(c, fresh, kept, i, k);
    law_intent_survives_where_the_key_does(before.talk, c, id, key.slot);
    lemma_endpoint_position(c.endpoints, id, 0);
    let e = c.endpoint_at(id)->0;
    if e < i {
        assert(c.endpoints[e].id != c.endpoints[i].id);
    }
    assert(c.endpoints[e].keys[k].slot == key.slot);
    assert(key_exists(c, IntentView { endpoint: id, slot: key.slot, on: true }));
}

/// A rebuilt host's engine is wired, so that nobody on it can hear themselves.
pub proof fn law_rebuilt_engine_is_wired<S: Sample>(before: HostView<S>, c: ConfigView, after: HostView<S>)
    requires
        rebuilt(before, c, after),
        coherent(c),
        c.partylines.len() <= usize::MAX,
    ensures
        wired(after.engine),
{
    let fresh = choose|fresh: EngineView<S>| #[trigger] rebuilt_from(before, c, fresh, after);
    let kept = before.talk.filter(still_there(c));
    law_compiled_is_wired(c, fresh);
    lemma_replayed_shape(fresh, kept, kept.len() as int);
    assert forall|s: int| 0 <= s < fresh.keys.len() implies same_wires(
        fresh.keys[s],
        #[trigger] after.engine.keys[s],
    ) by {
        assert(after.engine.keys[s] == replayed(fresh, kept, kept.len() as int).keys[s]);
    }
    lemma_wiring_kept(fresh, after.engine);
}

/// In exact arithmetic a held peak is the largest of what was held and what was metered.
pub proof fn law_peaks_are_held<S: Sample>(
    val: spec_fn(S) -> real,
    before: Seq<S>,
    metered: Seq<S>,
    after: Seq<S>,
    i: int,
)
    requires
        exact(val),
        held(before, metered, after),
        0 <= i < before.len(),
    ensures
        val(after[i]) == larger(val(before[i]), val(metered[i])),
{
    assert(greater_is(before[i], metered[i], after[i]));
}

} // verus!
