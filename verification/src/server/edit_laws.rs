//! What edits keep and what they bring about.

use vstd::prelude::*;

use crate::config::coherence::{coherent, coherent_keys, reachable};
use crate::config::model::{
    endpoint_position, fresh_key, lemma_endpoint_position, lemma_key_position, lemma_partyline_position,
    ConfigView, EndpointKind, EndpointView, KeyView, TargetView, MAX_KEYS,
};
use crate::engine::plan::StreamRoute;
use crate::rtp::addressing::Ipv4Addr;
use crate::server::audio_io::{key_group_is, mic_group_is};
use crate::server::edit::{
    endpoint_added, endpoint_deleted, endpoint_updated, key_assigned, key_unassigned, key_updated,
    other_endpoint, other_partyline, partyline_added, partyline_deleted, points_at, points_elsewhere,
    sits_elsewhere, without_target, EndpointSettings, KeySettings,
};

verus! {

/// Where the items that a filter keeps came from.
spec fn kept_from<A>(s: Seq<A>, p: spec_fn(A) -> bool, at: Seq<int>) -> bool {
    &&& at.len() == s.filter(p).len()
    &&& forall|i: int|
        0 <= i < at.len() ==> 0 <= #[trigger] at[i] < s.len() && s.filter(p)[i] == s[at[i]] && p(s[at[i]])
    &&& forall|i: int, j: int| 0 <= i < j < at.len() ==> #[trigger] at[i] < #[trigger] at[j]
    &&& forall|k: int| 0 <= k < s.len() && p(#[trigger] s[k]) ==> at.contains(k)
}

/// Every filter keeps its items in order.
proof fn lemma_kept_from<A>(s: Seq<A>, p: spec_fn(A) -> bool) -> (at: Seq<int>)
    ensures
        kept_from(s, p, at),
    decreases s.len(),
{
    reveal(Seq::filter);
    if s.len() == 0 {
        Seq::empty()
    } else {
        let short = s.drop_last();
        let n = s.len() - 1;
        let before = lemma_kept_from(short, p);
        assert(s =~= short.push(s.last()));
        short.lemma_filter_push(s.last(), p);
        let at = if p(s.last()) {
            before.push(n)
        } else {
            before
        };
        assert forall|i: int| 0 <= i < at.len() implies 0 <= #[trigger] at[i] < s.len() && s.filter(p)[i] == s[at[i]]
            && p(s[at[i]]) by {
            if i < before.len() {
                assert(at[i] == before[i]);
                assert(short.filter(p)[i] == short[before[i]]);
            }
        }
        assert forall|i: int, j: int| 0 <= i < j < at.len() implies #[trigger] at[i] < #[trigger] at[j] by {
            if j < before.len() {
                assert(at[i] == before[i] && at[j] == before[j]);
            } else {
                assert(at[i] == before[i]);
            }
        }
        assert forall|k: int| 0 <= k < s.len() && p(#[trigger] s[k]) implies at.contains(k) by {
            if k < n {
                assert(short[k] == s[k]);
                assert(before.contains(k));
                let i = choose|i: int| 0 <= i < before.len() && before[i] == k;
                assert(at[i] == k);
            } else {
                assert(at[at.len() - 1] == k);
            }
        }
        at
    }
}

/// Keys that were in order stay so when some are taken away.
proof fn lemma_fewer_keys(c: ConfigView, d: ConfigView, e: EndpointView, p: spec_fn(KeyView) -> bool)
    requires
        coherent_keys(c, e),
        forall|k: int|
            0 <= k < e.keys.len() && p(e.keys[k]) ==> reachable(d, e, #[trigger] e.keys[k]),
    ensures
        coherent_keys(d, EndpointView { keys: e.keys.filter(p), ..e }),
{
    let at = lemma_kept_from(e.keys, p);
    let f = EndpointView { keys: e.keys.filter(p), ..e };
    e.keys.lemma_filter_len(p);
    assert forall|k: int| 0 <= k < f.keys.len() implies (#[trigger] f.keys[k]).slot < MAX_KEYS && reachable(
        d,
        f,
        f.keys[k],
    ) by {
        assert(f.keys[k] == e.keys[at[k]]);
    }
    assert forall|j: int, k: int|
        #![trigger f.keys[j], f.keys[k]]
        0 <= j < k < f.keys.len() implies f.keys[j].slot != f.keys[k].slot && f.keys[j].target
        != f.keys[k].target by {
        assert(at[j] < at[k]);
        assert(f.keys[j] == e.keys[at[j]] && f.keys[k] == e.keys[at[k]]);
    }
}

/// A partyline is found where one carries the id.
proof fn lemma_partyline_found(c: ConfigView, id: Seq<char>, i: int)
    requires
        0 <= i < c.partylines.len(),
        c.partylines[i].id == id,
    ensures
        c.partyline_at(id) is Some,
{
    lemma_partyline_position(c.partylines, id, 0);
}

/// An endpoint is found where one carries the id.
proof fn lemma_endpoint_found(c: ConfigView, id: Seq<char>, i: int)
    requires
        0 <= i < c.endpoints.len(),
        c.endpoints[i].id == id,
    ensures
        c.endpoint_at(id) is Some,
{
    lemma_endpoint_position(c.endpoints, id, 0);
}

/// Endpoints with the same ids in the same places are found in the same places.
proof fn lemma_same_ids(a: Seq<EndpointView>, b: Seq<EndpointView>, id: Seq<char>, from: int)
    requires
        a.len() == b.len(),
        0 <= from,
        forall|i: int| 0 <= i < a.len() ==> #[trigger] a[i].id == b[i].id,
    ensures
        endpoint_position(a, id, from) == endpoint_position(b, id, from),
    decreases a.len() - from,
{
    if from < a.len() {
        assert(a[from].id == b[from].id);
        lemma_same_ids(a, b, id, from + 1);
    }
}

/// Removing a partyline leaves no key pointing at it, and a system that could be served
/// can still be served.
pub proof fn law_deleted_partyline_leaves_no_orphan(c: ConfigView, id: Seq<char>)
    requires
        partyline_deleted(c, id) is Ok,
    ensures
        ({
            let d = partyline_deleted(c, id)->Ok_0;
            &&& d.partyline_at(id) is None
            &&& forall|i: int|
                0 <= i < d.endpoints.len() ==> !points_at(#[trigger] d.endpoints[i], TargetView::Partyline(id))
            &&& coherent(c) ==> coherent(d)
        }),
{
    let d = partyline_deleted(c, id)->Ok_0;
    let t = TargetView::Partyline(id);
    let at = lemma_kept_from(c.partylines, other_partyline(id));
    lemma_partyline_position(d.partylines, id, 0);
    assert(d.partyline_at(id) is None) by {
        if d.partyline_at(id) is Some {
            let k = d.partyline_at(id)->0;
            assert(d.partylines[k] == c.partylines[at[k]]);
        }
    }
    assert forall|i: int| 0 <= i < d.endpoints.len() implies !points_at(#[trigger] d.endpoints[i], t) by {
        lemma_no_key_left(c.endpoints[i], t);
    }
    if coherent(c) {
        assert forall|i: int, j: int|
            #![trigger d.endpoints[i], d.endpoints[j]]
            0 <= i < j < d.endpoints.len() implies d.endpoints[i].id != d.endpoints[j].id by {
            assert(c.endpoints[i].id != c.endpoints[j].id);
        }
        assert forall|i: int, j: int|
            #![trigger d.partylines[i], d.partylines[j]]
            0 <= i < j < d.partylines.len() implies d.partylines[i].id != d.partylines[j].id by {
            assert(at[i] < at[j]);
            assert(d.partylines[i] == c.partylines[at[i]] && d.partylines[j] == c.partylines[at[j]]);
        }
        assert forall|i: int| 0 <= i < d.endpoints.len() implies coherent_keys(d, #[trigger] d.endpoints[i]) by {
            let e = c.endpoints[i];
            assert(coherent_keys(c, e));
            assert forall|k: int| 0 <= k < e.keys.len() && points_elsewhere(t)(e.keys[k]) implies reachable(
                d,
                e,
                #[trigger] e.keys[k],
            ) by {
                assert(reachable(c, e, e.keys[k]));
                match e.keys[k].target {
                    TargetView::Partyline(p) => {
                        lemma_partyline_position(c.partylines, p, 0);
                        let q = c.partyline_at(p)->0;
                        assert(other_partyline(id)(c.partylines[q]));
                        assert(at.contains(q));
                        let r = choose|r: int| 0 <= r < at.len() && at[r] == q;
                        assert(d.partylines[r] == c.partylines[at[r]]);
                        lemma_partyline_found(d, p, r);
                    },
                    TargetView::Direct(o) => {
                        lemma_same_ids(c.endpoints, d.endpoints, o, 0);
                    },
                }
            }
            lemma_fewer_keys(c, d, e, points_elsewhere(t));
        }
    }
}

proof fn lemma_no_key_left(e: EndpointView, t: TargetView)
    ensures
        !points_at(without_target(e, t), t),
{
    let f = without_target(e, t);
    let at = lemma_kept_from(e.keys, points_elsewhere(t));
    if points_at(f, t) {
        let k = choose|k: int| 0 <= k < f.keys.len() && #[trigger] f.keys[k].target == t;
        assert(f.keys[k] == e.keys[at[k]]);
        assert(points_elsewhere(t)(e.keys[at[k]]));
    }
}

/// Removing an endpoint leaves no direct key pointing at it, and a system that could be
/// served can still be served.
pub proof fn law_deleted_endpoint_leaves_no_orphan(c: ConfigView, id: Seq<char>)
    requires
        endpoint_deleted(c, id) is Ok,
    ensures
        ({
            let d = endpoint_deleted(c, id)->Ok_0;
            &&& d.endpoint_at(id) is None
            &&& forall|i: int|
                0 <= i < d.endpoints.len() ==> !points_at(#[trigger] d.endpoints[i], TargetView::Direct(id))
            &&& coherent(c) ==> coherent(d)
        }),
{
    let d = endpoint_deleted(c, id)->Ok_0;
    let t = TargetView::Direct(id);
    let kept = c.endpoints.filter(other_endpoint(id));
    let at = lemma_kept_from(c.endpoints, other_endpoint(id));
    lemma_endpoint_position(d.endpoints, id, 0);
    assert(d.endpoint_at(id) is None) by {
        if d.endpoint_at(id) is Some {
            let k = d.endpoint_at(id)->0;
            assert(kept[k] == c.endpoints[at[k]]);
        }
    }
    assert forall|i: int| 0 <= i < d.endpoints.len() implies !points_at(#[trigger] d.endpoints[i], t) by {
        lemma_no_key_left(kept[i], t);
    }
    if coherent(c) {
        assert forall|i: int, j: int|
            #![trigger d.endpoints[i], d.endpoints[j]]
            0 <= i < j < d.endpoints.len() implies d.endpoints[i].id != d.endpoints[j].id by {
            assert(at[i] < at[j]);
            assert(kept[i] == c.endpoints[at[i]] && kept[j] == c.endpoints[at[j]]);
        }
        assert forall|i: int| 0 <= i < d.endpoints.len() implies coherent_keys(d, #[trigger] d.endpoints[i]) by {
            let e = c.endpoints[at[i]];
            assert(kept[i] == e);
            assert(coherent_keys(c, e));
            assert forall|k: int| 0 <= k < e.keys.len() && points_elsewhere(t)(e.keys[k]) implies reachable(
                d,
                e,
                #[trigger] e.keys[k],
            ) by {
                assert(reachable(c, e, e.keys[k]));
                if let TargetView::Direct(o) = e.keys[k].target {
                    lemma_endpoint_position(c.endpoints, o, 0);
                    let q = c.endpoint_at(o)->0;
                    assert(other_endpoint(id)(c.endpoints[q]));
                    assert(at.contains(q));
                    let r = choose|r: int| 0 <= r < at.len() && at[r] == q;
                    assert(kept[r] == c.endpoints[at[r]]);
                    assert(d.endpoints[r].id == o);
                    lemma_endpoint_found(d, o, r);
                }
            }
            lemma_fewer_keys(c, d, e, points_elsewhere(t));
        }
    }
}

/// A slot that is free is not in use, and every one before it is.
proof fn lemma_free_slot(e: EndpointView, from: int)
    requires
        0 <= from,
    ensures
        e.lowest_free(from) matches Some(s) ==> from <= s < MAX_KEYS && !e.slot_used(s),
    decreases MAX_KEYS - from,
{
    if from < MAX_KEYS && e.slot_used(from) {
        lemma_free_slot(e, from + 1);
    }
}

/// An endpoint that was given a key points there.
proof fn lemma_assigned_points(e: EndpointView, t: TargetView)
    requires
        e.lowest_free(0) is Some,
    ensures
        points_at(e.assigned(t), t),
        e.assigned(t).id == e.id,
        forall|u: TargetView| points_at(e, u) ==> #[trigger] points_at(e.assigned(t), u),
{
    let f = e.assigned(t);
    assert(f.keys[e.keys.len() as int].target == t);
    assert forall|u: TargetView| points_at(e, u) implies #[trigger] points_at(f, u) by {
        let k = choose|k: int| 0 <= k < e.keys.len() && #[trigger] e.keys[k].target == u;
        assert(f.keys[k].target == u);
    }
}

/// A direct assignment is mutual: each end has a key at the other.
pub proof fn law_direct_assignment_is_mutual(c: ConfigView, id: Seq<char>, other: Seq<char>)
    requires
        key_assigned(c, id, TargetView::Direct(other)) is Ok,
    ensures
        ({
            let d = key_assigned(c, id, TargetView::Direct(other))->Ok_0;
            &&& d.endpoint_at(id) is Some
            &&& d.endpoint_at(other) is Some
            &&& points_at(d.endpoints[d.endpoint_at(id)->0], TargetView::Direct(other))
            &&& points_at(d.endpoints[d.endpoint_at(other)->0], TargetView::Direct(id))
        }),
{
    let t = TargetView::Direct(other);
    let i = c.endpoint_at(id)->0;
    lemma_endpoint_position(c.endpoints, id, 0);
    let half = ConfigView { endpoints: c.endpoints.update(i, c.endpoints[i].assigned(t)), ..c };
    let d = key_assigned(c, id, t)->Ok_0;
    lemma_assigned_points(c.endpoints[i], t);
    assert forall|k: int| 0 <= k < c.endpoints.len() implies #[trigger] c.endpoints[k].id == half.endpoints[k].id by {}
    lemma_same_ids(c.endpoints, half.endpoints, id, 0);
    lemma_endpoint_position(half.endpoints, other, 0);
    let j = half.endpoint_at(other)->0;
    if !points_at(half.endpoints[j], TargetView::Direct(id)) {
        lemma_assigned_points(half.endpoints[j], TargetView::Direct(id));
        assert forall|k: int| 0 <= k < half.endpoints.len() implies #[trigger] half.endpoints[k].id
            == d.endpoints[k].id by {}
        lemma_same_ids(half.endpoints, d.endpoints, id, 0);
        lemma_same_ids(half.endpoints, d.endpoints, other, 0);
    }
}

/// A key added where a slot is free and nothing points there yet keeps the keys in order.
proof fn lemma_one_more_key(c: ConfigView, d: ConfigView, e: EndpointView, t: TargetView)
    requires
        coherent_keys(c, e),
        e.lowest_free(0) is Some,
        !points_at(e, t),
        forall|k: int| 0 <= k < e.keys.len() ==> reachable(d, e, #[trigger] e.keys[k]),
        reachable(d, e, fresh_key(0, t)),
    ensures
        coherent_keys(d, e.assigned(t)),
{
    lemma_free_slot(e, 0);
    let slot = e.lowest_free(0)->0;
    let f = e.assigned(t);
    let n = e.keys.len() as int;
    assert(f.keys[n] == fresh_key(slot as u8, t));
    assert(n < MAX_KEYS) by {
        lemma_distinct_slots_leave_room(e, slot);
    }
    assert forall|k: int| 0 <= k < f.keys.len() implies (#[trigger] f.keys[k]).slot < MAX_KEYS && reachable(
        d,
        f,
        f.keys[k],
    ) by {
        if k < n {
            assert(f.keys[k] == e.keys[k]);
            assert(reachable(d, e, e.keys[k]));
        }
    }
    assert forall|j: int, k: int|
        #![trigger f.keys[j], f.keys[k]]
        0 <= j < k < f.keys.len() implies f.keys[j].slot != f.keys[k].slot && f.keys[j].target
        != f.keys[k].target by {
        assert(f.keys[j] == e.keys[j]);
        if k < n {
            assert(f.keys[k] == e.keys[k]);
        } else {
            assert(e.keys[j].slot != slot);
            assert(e.keys[j].target != t);
        }
    }
}

/// Keys in slots of their own, with one slot free, are fewer than the slots.
proof fn lemma_distinct_slots_leave_room(e: EndpointView, free: int)
    requires
        0 <= free < MAX_KEYS,
        !e.slot_used(free),
        forall|k: int| 0 <= k < e.keys.len() ==> (#[trigger] e.keys[k]).slot < MAX_KEYS,
        forall|j: int, k: int|
            #![trigger e.keys[j], e.keys[k]]
            0 <= j < k < e.keys.len() ==> e.keys[j].slot != e.keys[k].slot,
    ensures
        e.keys.len() < MAX_KEYS,
{
    let slots = Seq::new(e.keys.len(), |k: int| e.keys[k].slot as int);
    assert(slots.no_duplicates()) by {
        assert forall|j: int, k: int| 0 <= j < slots.len() && 0 <= k < slots.len() && j != k implies slots[j]
            != slots[k] by {
            if j < k {
                assert(e.keys[j].slot != e.keys[k].slot);
            } else {
                assert(e.keys[k].slot != e.keys[j].slot);
            }
        }
    }
    slots.unique_seq_to_set();
    let all = vstd::set_lib::set_int_range(0, MAX_KEYS as int);
    vstd::set_lib::lemma_int_range(0, MAX_KEYS as int);
    assert(slots.to_set().subset_of(all.remove(free))) by {
        assert forall|x: int| slots.to_set().contains(x) implies all.remove(free).contains(x) by {
            let k = choose|k: int| 0 <= k < slots.len() && slots[k] == x;
            assert(e.keys[k].slot == x);
        }
    }
    vstd::set_lib::lemma_len_subset(slots.to_set(), all.remove(free));
}

/// Assigning a key at something that exists keeps a system that could be served so.
pub proof fn law_assignment_keeps_the_system_coherent(c: ConfigView, id: Seq<char>, t: TargetView)
    requires
        coherent(c),
        key_assigned(c, id, t) is Ok,
        match t {
            TargetView::Partyline(p) => c.partyline_at(p) is Some,
            TargetView::Direct(o) => o != id,
        },
    ensures
        coherent(key_assigned(c, id, t)->Ok_0),
{
    let i = c.endpoint_at(id)->0;
    lemma_endpoint_position(c.endpoints, id, 0);
    let half = ConfigView { endpoints: c.endpoints.update(i, c.endpoints[i].assigned(t)), ..c };
    assert forall|k: int| 0 <= k < c.endpoints.len() implies #[trigger] c.endpoints[k].id == half.endpoints[k].id by {}
    if let TargetView::Direct(o) = t {
        lemma_same_ids(c.endpoints, half.endpoints, o, 0);
    }
    lemma_key_added(c, half, i, t);
    if let TargetView::Direct(o) = t {
        let back = TargetView::Direct(id);
        let d = key_assigned(c, id, t)->Ok_0;
        let j = half.endpoint_at(o)->0;
        lemma_endpoint_position(half.endpoints, o, 0);
        if !points_at(half.endpoints[j], back) {
            lemma_same_ids(c.endpoints, half.endpoints, id, 0);
            lemma_key_added(half, d, j, back);
        }
    }
}

/// One key more, at something that exists.
proof fn lemma_key_added(c: ConfigView, d: ConfigView, i: int, t: TargetView)
    requires
        coherent(c),
        0 <= i < c.endpoints.len(),
        c.endpoints[i].lowest_free(0) is Some,
        !points_at(c.endpoints[i], t),
        d == (ConfigView { endpoints: c.endpoints.update(i, c.endpoints[i].assigned(t)), ..c }),
        match t {
            TargetView::Partyline(p) => c.partyline_at(p) is Some,
            TargetView::Direct(o) => o != c.endpoints[i].id && c.endpoint_at(o) is Some,
        },
    ensures
        coherent(d),
{
    assert forall|k: int| 0 <= k < c.endpoints.len() implies #[trigger] c.endpoints[k].id == d.endpoints[k].id by {}
    assert forall|a: int, b: int|
        #![trigger d.endpoints[a], d.endpoints[b]]
        0 <= a < b < d.endpoints.len() implies d.endpoints[a].id != d.endpoints[b].id by {
        assert(c.endpoints[a].id != c.endpoints[b].id);
    }
    assert forall|a: int| 0 <= a < d.endpoints.len() implies coherent_keys(d, #[trigger] d.endpoints[a]) by {
        let e = c.endpoints[a];
        assert(coherent_keys(c, e));
        assert forall|k: int| 0 <= k < e.keys.len() implies reachable(d, e, #[trigger] e.keys[k]) by {
            assert(reachable(c, e, e.keys[k]));
            if let TargetView::Direct(o) = e.keys[k].target {
                lemma_same_ids(c.endpoints, d.endpoints, o, 0);
            }
        }
        if a == i {
            if let TargetView::Direct(o) = t {
                lemma_same_ids(c.endpoints, d.endpoints, o, 0);
            }
            lemma_one_more_key(c, d, e, t);
        }
    }
}

/// Taking a key away by its slot frees the slot, touches no other endpoint, and keeps a
/// system that could be served so.
pub proof fn law_unassigned_slot_is_free(c: ConfigView, id: Seq<char>, slot: u8)
    requires
        key_unassigned(c, id, slot) is Ok,
    ensures
        ({
            let d = key_unassigned(c, id, slot)->Ok_0;
            let i = c.endpoint_at(id)->0;
            &&& !d.endpoints[i].slot_used(slot as int)
            &&& forall|j: int| 0 <= j < c.endpoints.len() && j != i ==> #[trigger] d.endpoints[j] == c.endpoints[j]
            &&& coherent(c) ==> coherent(d)
        }),
{
    let d = key_unassigned(c, id, slot)->Ok_0;
    let i = c.endpoint_at(id)->0;
    lemma_endpoint_position(c.endpoints, id, 0);
    let e = c.endpoints[i];
    let p = sits_elsewhere(slot);
    let at = lemma_kept_from(e.keys, p);
    let f = d.endpoints[i];
    assert(!f.slot_used(slot as int)) by {
        if f.slot_used(slot as int) {
            let k = choose|k: int| 0 <= k < f.keys.len() && #[trigger] f.keys[k].slot == slot;
            assert(f.keys[k] == e.keys[at[k]]);
            assert(p(e.keys[at[k]]));
        }
    }
    if coherent(c) {
        assert forall|k: int| 0 <= k < c.endpoints.len() implies #[trigger] c.endpoints[k].id == d.endpoints[k].id by {}
        assert forall|a: int, b: int|
            #![trigger d.endpoints[a], d.endpoints[b]]
            0 <= a < b < d.endpoints.len() implies d.endpoints[a].id != d.endpoints[b].id by {
            assert(c.endpoints[a].id != c.endpoints[b].id);
        }
        assert forall|a: int| 0 <= a < d.endpoints.len() implies coherent_keys(d, #[trigger] d.endpoints[a]) by {
            let g = c.endpoints[a];
            assert(coherent_keys(c, g));
            assert forall|k: int| 0 <= k < g.keys.len() implies reachable(d, g, #[trigger] g.keys[k]) by {
                assert(reachable(c, g, g.keys[k]));
                if let TargetView::Direct(o) = g.keys[k].target {
                    lemma_same_ids(c.endpoints, d.endpoints, o, 0);
                }
            }
            if a == i {
                lemma_fewer_keys(c, d, g, p);
            }
        }
    }
}

/// Adding a partyline or an endpoint that does not exist yet keeps a system that could be
/// served so.
pub proof fn law_additions_keep_the_system_coherent(
    c: ConfigView,
    id: Seq<char>,
    name: Seq<char>,
    colour: Option<Seq<char>>,
    kind: EndpointKind,
)
    requires
        coherent(c),
    ensures
        partyline_added(c, id, name, colour) matches Ok(d) ==> coherent(d),
        endpoint_added(c, id, name, kind) matches Ok(d) ==> coherent(d),
{
    if let Ok(d) = partyline_added(c, id, name, colour) {
        lemma_partyline_position(c.partylines, id, 0);
        assert forall|a: int, b: int|
            #![trigger d.partylines[a], d.partylines[b]]
            0 <= a < b < d.partylines.len() implies d.partylines[a].id != d.partylines[b].id by {
            if b < c.partylines.len() {
                assert(c.partylines[a].id != c.partylines[b].id);
            }
        }
        assert forall|a: int| 0 <= a < d.endpoints.len() implies coherent_keys(d, #[trigger] d.endpoints[a]) by {
            let e = c.endpoints[a];
            assert(coherent_keys(c, e));
            assert forall|k: int| 0 <= k < e.keys.len() implies reachable(d, e, #[trigger] e.keys[k]) by {
                assert(reachable(c, e, e.keys[k]));
                if let TargetView::Partyline(p) = e.keys[k].target {
                    lemma_partyline_position(c.partylines, p, 0);
                    let q = c.partyline_at(p)->0;
                    assert(d.partylines[q] == c.partylines[q]);
                    lemma_partyline_found(d, p, q);
                }
            }
        }
    }
    if let Ok(d) = endpoint_added(c, id, name, kind) {
        lemma_endpoint_position(c.endpoints, id, 0);
        let n = c.endpoints.len() as int;
        assert forall|a: int, b: int|
            #![trigger d.endpoints[a], d.endpoints[b]]
            0 <= a < b < d.endpoints.len() implies d.endpoints[a].id != d.endpoints[b].id by {
            if b < n {
                assert(c.endpoints[a].id != c.endpoints[b].id);
            }
        }
        assert forall|a: int| 0 <= a < d.endpoints.len() implies coherent_keys(d, #[trigger] d.endpoints[a]) by {
            if a < n {
                let e = c.endpoints[a];
                assert(coherent_keys(c, e));
                assert forall|k: int| 0 <= k < e.keys.len() implies reachable(d, e, #[trigger] e.keys[k]) by {
                    assert(reachable(c, e, e.keys[k]));
                    if let TargetView::Direct(o) = e.keys[k].target {
                        lemma_endpoint_position(c.endpoints, o, 0);
                        let q = c.endpoint_at(o)->0;
                        assert(d.endpoints[q] == c.endpoints[q]);
                        lemma_endpoint_found(d, o, q);
                    }
                }
            }
        }
    }
}

/// Settings change nothing that routing rests on: slots, targets and ids stay, so a system
/// that could be served still can be.
pub proof fn law_settings_keep_the_system_coherent(
    c: ConfigView,
    id: Seq<char>,
    slot: u8,
    key: KeySettings,
    endpoint: EndpointSettings,
)
    requires
        coherent(c),
    ensures
        key_updated(c, id, slot, key) matches Ok(d) ==> coherent(d),
        endpoint_updated(c, id, endpoint) matches Ok(d) ==> coherent(d),
{
    lemma_endpoint_position(c.endpoints, id, 0);
    if let Ok(d) = key_updated(c, id, slot, key) {
        let i = c.endpoint_at(id)->0;
        lemma_key_position(c.endpoints[i], slot as int, 0);
        lemma_only_settings(c, d);
    }
    if let Ok(d) = endpoint_updated(c, id, endpoint) {
        lemma_only_settings(c, d);
    }
}

/// Whether two endpoints route alike.
spec fn same_routing(e: EndpointView, f: EndpointView) -> bool {
    &&& e.id == f.id
    &&& e.keys.len() == f.keys.len()
    &&& forall|k: int|
        #![trigger e.keys[k]]
        #![trigger f.keys[k]]
        0 <= k < e.keys.len() ==> e.keys[k].slot == f.keys[k].slot && e.keys[k].target == f.keys[k].target
}

proof fn lemma_only_settings(c: ConfigView, d: ConfigView)
    requires
        coherent(c),
        d.system == c.system,
        d.partylines == c.partylines,
        d.endpoints.len() == c.endpoints.len(),
        forall|i: int| 0 <= i < c.endpoints.len() ==> same_routing(c.endpoints[i], #[trigger] d.endpoints[i]),
    ensures
        coherent(d),
{
    assert forall|k: int| 0 <= k < c.endpoints.len() implies #[trigger] c.endpoints[k].id == d.endpoints[k].id by {
        assert(same_routing(c.endpoints[k], d.endpoints[k]));
    }
    assert forall|a: int, b: int|
        #![trigger d.endpoints[a], d.endpoints[b]]
        0 <= a < b < d.endpoints.len() implies d.endpoints[a].id != d.endpoints[b].id by {
        assert(c.endpoints[a].id != c.endpoints[b].id);
    }
    assert forall|a: int| 0 <= a < d.endpoints.len() implies coherent_keys(d, #[trigger] d.endpoints[a]) by {
        let e = c.endpoints[a];
        let f = d.endpoints[a];
        assert(coherent_keys(c, e) && same_routing(e, f));
        assert forall|k: int| 0 <= k < f.keys.len() implies reachable(d, f, #[trigger] f.keys[k])
            && f.keys[k].slot < MAX_KEYS by {
            assert(reachable(c, e, e.keys[k]));
            if let TargetView::Direct(o) = e.keys[k].target {
                lemma_same_ids(c.endpoints, d.endpoints, o, 0);
            }
        }
        assert forall|j: int, k: int|
            #![trigger f.keys[j], f.keys[k]]
            0 <= j < k < f.keys.len() implies f.keys[j].slot != f.keys[k].slot && f.keys[j].target
            != f.keys[k].target by {
            assert(e.keys[j].slot != e.keys[k].slot && e.keys[j].target != e.keys[k].target);
        }
    }
}

/// Giving an endpoint a key moves no multicast group: every stream that there is keeps the
/// group that its endpoint and slot gave it, and every microphone keeps its own.
pub proof fn law_adding_a_key_moves_no_group(
    c: ConfigView,
    id: Seq<char>,
    target: TargetView,
    next: ConfigView,
    r: StreamRoute,
    before: Option<Ipv4Addr>,
    after: Option<Ipv4Addr>,
)
    requires
        key_assigned(c, id, target) == Ok::<ConfigView, Seq<char>>(next),
        r.endpoint < c.endpoints.len(),
    ensures
        next.endpoints.len() == c.endpoints.len(),
        key_group_is(c, r, before) && key_group_is(next, r, after) ==> after == before,
        mic_group_is(c, r.endpoint as int, before) && mic_group_is(next, r.endpoint as int, after) ==> after == before,
{
    lemma_endpoint_position(c.endpoints, id, 0);
    let i = c.endpoint_at(id)->0;
    let half = ConfigView { endpoints: c.endpoints.update(i, c.endpoints[i].assigned(target)), ..c };
    if let TargetView::Direct(other) = target {
        lemma_endpoint_position(half.endpoints, other, 0);
    }
    assert(next.endpoints[r.endpoint as int].kind == c.endpoints[r.endpoint as int].kind);
}

} // verus!
