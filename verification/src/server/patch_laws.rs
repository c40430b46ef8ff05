//! What each edit changes, when it is refused, and what a committed configuration is shown as.

use vstd::prelude::*;

use crate::config::findings::{problems_view, KindView, Problem};
use crate::config::model::{
    lemma_endpoint_position, lemma_key_position, lemma_partyline_position, stream_total, Config, ConfigView,
    EndpointView, KeyView, PartylineView, TargetView,
};
use crate::config::model_laws::{law_assigning_adds_one_key, lemma_wired_keys, wired_keys};
use crate::config::validate_laws::{
    fatal, is_endpoint, is_partyline, law_valid_means_nothing_fatal, lemma_error_is_wrong, says, wrong,
};
use crate::server::edit::{
    add_endpoint, add_partyline, assign, commit, delete_endpoint, delete_partyline, describe, key_total,
    other_endpoint, other_partyline, points_at, points_elsewhere, sits_elsewhere, starter_config, unassign,
    update_endpoint, update_key, AssignRequest, EndpointSettings, KeySettings, NewEndpoint, NewPartyline,
    StateResponse, UnassignRequest,
};
use crate::text::decimal;

verus! {

proof fn lemma_found(c: ConfigView, id: Seq<char>)
    ensures
        c.endpoint_at(id) is Some <==> is_endpoint(c, id),
        c.partyline_at(id) is Some <==> is_partyline(c, id),
        c.endpoint_at(id) matches Some(i) ==> first_named(c, id, i),
{
    lemma_endpoint_position(c.endpoints, id, 0);
    lemma_partyline_position(c.partylines, id, 0);
    if let Some(i) = c.endpoint_at(id) {
        assert(c.endpoints[i].id == id);
    }
    if let Some(i) = c.partyline_at(id) {
        assert(c.partylines[i].id == id);
    }
}

/// Whether endpoint `i` is the first of this name.
pub open spec fn first_named(c: ConfigView, id: Seq<char>, i: int) -> bool {
    0 <= i < c.endpoints.len() && c.endpoints[i].id == id && forall|j: int|
        0 <= j < i ==> (#[trigger] c.endpoints[j]).id != id
}

/// Whether an edit was refused with this text.
pub open spec fn refused(r: Result<Config, String>, text: Seq<char>) -> bool {
    r matches Err(e) && e@ == text
}

// Adding.

/// A partyline is added behind the others with what was asked for, at 0 dB, and nothing else
/// changes; unless there is one of that name.
pub proof fn law_a_partyline_is_added(config: &Config, req: NewPartyline, r: Result<Config, String>)
    requires
        call_ensures(add_partyline, (config, req), r),
    ensures
        r is Err <==> is_partyline(config@, req.id@),
        r matches Err(e) ==> e@ == "a partyline called '"@ + req.id@ + "' already exists"@,
        r matches Ok(next) ==> {
            let (c, n) = (config@, next@);
            let p = n.partylines[c.partylines.len() as int];
            &&& n.system == c.system
            &&& n.endpoints == c.endpoints
            &&& n.partylines.len() == c.partylines.len() + 1
            &&& forall|i: int| 0 <= i < c.partylines.len() ==> #[trigger] n.partylines[i] == c.partylines[i]
            &&& p.id == req.id@
            &&& p.name == req.name@
            &&& p.bus_trim_db.bits == 0
            &&& req.colour is None ==> p.colour is None
            &&& req.colour matches Some(colour) ==> p.colour == Some(colour@)
        },
{
    lemma_found(config@, req.id@);
}

/// An endpoint is added behind the others with what was asked for, at 0 dB, open and without
/// keys, and nothing else changes; unless there is one of that name.
pub proof fn law_an_endpoint_is_added(config: &Config, req: NewEndpoint, r: Result<Config, String>)
    requires
        call_ensures(add_endpoint, (config, req), r),
    ensures
        r is Err <==> is_endpoint(config@, req.id@),
        r matches Err(e) ==> e@ == "an endpoint called '"@ + req.id@ + "' already exists"@,
        r matches Ok(next) ==> {
            let (c, n) = (config@, next@);
            let e = n.endpoints[c.endpoints.len() as int];
            &&& n.system == c.system
            &&& n.partylines == c.partylines
            &&& n.endpoints.len() == c.endpoints.len() + 1
            &&& forall|i: int| 0 <= i < c.endpoints.len() ==> #[trigger] n.endpoints[i] == c.endpoints[i]
            &&& e.id == req.id@
            &&& e.name == req.name@
            &&& e.kind == req.kind
            &&& e.input_gain_db.bits == 0
            &&& !e.input_muted
            &&& e.keys.len() == 0
        },
{
    lemma_found(config@, req.id@);
}

// Removing.

/// Removing a partyline takes out every one of that name and every key that points at it, and
/// leaves everything else as and where it was; unless there is none of that name.
pub proof fn law_a_partyline_is_removed(config: &Config, id: &str, r: Result<Config, String>)
    requires
        call_ensures(delete_partyline, (config, id), r),
    ensures
        r is Err <==> !is_partyline(config@, id@),
        r matches Err(e) ==> e@ == "no partyline called '"@ + id@ + "'"@,
        r matches Ok(next) ==> {
            let (c, n) = (config@, next@);
            &&& n.system == c.system
            &&& n.partylines == c.partylines.filter(|p: PartylineView| p.id != id@)
            &&& n.endpoints.len() == c.endpoints.len()
            &&& forall|i: int|
                0 <= i < c.endpoints.len() ==> #[trigger] n.endpoints[i] == (EndpointView {
                    keys: c.endpoints[i].keys.filter(|k: KeyView| k.target != TargetView::Partyline(id@)),
                    ..c.endpoints[i]
                })
        },
{
    lemma_found(config@, id@);
    assert(other_partyline(id@) =~= (|p: PartylineView| p.id != id@));
    assert(points_elsewhere(TargetView::Partyline(id@)) =~= (|k: KeyView| k.target != TargetView::Partyline(id@)));
}

/// Removing an endpoint takes out every one of that name and every direct key that points at it,
/// and leaves everything else as and in the order it was; unless there is none of that name.
pub proof fn law_an_endpoint_is_removed(config: &Config, id: &str, r: Result<Config, String>)
    requires
        call_ensures(delete_endpoint, (config, id), r),
    ensures
        r is Err <==> !is_endpoint(config@, id@),
        r matches Err(e) ==> e@ == "no endpoint called '"@ + id@ + "'"@,
        r matches Ok(next) ==> {
            let (c, n) = (config@, next@);
            let kept = c.endpoints.filter(|e: EndpointView| e.id != id@);
            &&& n.system == c.system
            &&& n.partylines == c.partylines
            &&& n.endpoints.len() == kept.len()
            &&& forall|i: int|
                0 <= i < kept.len() ==> #[trigger] n.endpoints[i] == (EndpointView {
                    keys: kept[i].keys.filter(|k: KeyView| k.target != TargetView::Direct(id@)),
                    ..kept[i]
                })
        },
{
    lemma_found(config@, id@);
    assert(other_endpoint(id@) =~= (|e: EndpointView| e.id != id@));
    assert(points_elsewhere(TargetView::Direct(id@)) =~= (|k: KeyView| k.target != TargetView::Direct(id@)));
}

// Keys.

/// Whether a slot is taken.
pub open spec fn taken(e: EndpointView, slot: int) -> bool {
    exists|k: int| 0 <= k < e.keys.len() && (#[trigger] e.keys[k]).slot == slot
}

/// Whether every one of an endpoint's ten slots is taken.
pub open spec fn full(e: EndpointView) -> bool {
    forall|s: int| 0 <= s < 10 ==> #[trigger] taken(e, s)
}

/// Whether an endpoint has a key at a target.
pub open spec fn reaches(e: EndpointView, target: TargetView) -> bool {
    exists|k: int| 0 <= k < e.keys.len() && (#[trigger] e.keys[k]).target == target
}

/// Whether an endpoint was given one plain key at a target, in its lowest free slot.
pub open spec fn given_key(e: EndpointView, target: TargetView, after: EndpointView) -> bool {
    let key = after.keys[e.keys.len() as int];
    &&& after.keys.len() == e.keys.len() + 1
    &&& after == (EndpointView { keys: after.keys, ..e })
    &&& forall|k: int| 0 <= k < e.keys.len() ==> #[trigger] after.keys[k] == e.keys[k]
    &&& key.target == target
    &&& key.slot < 10
    &&& !taken(e, key.slot as int)
    &&& forall|s: int| 0 <= s < key.slot ==> #[trigger] taken(e, s)
    &&& key.listen_level_db.bits == 0
    &&& !key.listen_muted
    &&& key.talk_mode is Latching
    &&& key.label is None
}

proof fn lemma_taken(e: EndpointView)
    ensures
        forall|s: int| #[trigger] e.slot_used(s) <==> taken(e, s),
        e.lowest_free(0) is None <==> full(e),
        forall|t: TargetView| #[trigger] points_at(e, t) <==> reaches(e, t),
{
    assert forall|s: int| #[trigger] e.slot_used(s) <==> taken(e, s) by {
        if e.slot_used(s) {
            let k = choose|k: int| 0 <= k < e.keys.len() && #[trigger] e.keys[k].slot == s;
            assert(e.keys[k].slot == s);
        }
        if taken(e, s) {
            let k = choose|k: int| 0 <= k < e.keys.len() && (#[trigger] e.keys[k]).slot == s;
            assert(e.keys[k].slot == s);
        }
    }
    assert forall|t: TargetView| #[trigger] points_at(e, t) <==> reaches(e, t) by {
        if points_at(e, t) {
            let k = choose|k: int| 0 <= k < e.keys.len() && #[trigger] e.keys[k].target == t;
            assert(e.keys[k].target == t);
        }
        if reaches(e, t) {
            let k = choose|k: int| 0 <= k < e.keys.len() && (#[trigger] e.keys[k]).target == t;
            assert(e.keys[k].target == t);
        }
    }
    lemma_lowest(e, 0);
    if full(e) {
        if let Some(s) = e.lowest_free(0) {
            assert(taken(e, s));
        }
    }
    if e.lowest_free(0) is None {
        assert forall|s: int| 0 <= s < 10 implies #[trigger] taken(e, s) by {
            assert(e.slot_used(s));
        }
    }
}

proof fn lemma_lowest(e: EndpointView, from: int)
    requires
        0 <= from <= 10,
    ensures
        match e.lowest_free(from) {
            Some(s) => from <= s < 10 && !e.slot_used(s),
            None => forall|t: int| from <= t < 10 ==> #[trigger] e.slot_used(t),
        },
    decreases 10 - from,
{
    if from < 10 && e.slot_used(from) {
        lemma_lowest(e, from + 1);
    }
}

proof fn lemma_given(e: EndpointView, target: TargetView)
    requires
        !full(e),
    ensures
        given_key(e, target, e.assigned(target)),
        reaches(e.assigned(target), target),
{
    lemma_taken(e);
    law_assigning_adds_one_key(e, target);
    let after = e.assigned(target);
    let key = after.keys[e.keys.len() as int];
    assert(!(forall|s: int| 0 <= s < 10 ==> #[trigger] e.slot_used(s))) by {
        if forall|s: int| 0 <= s < 10 ==> #[trigger] e.slot_used(s) {
            assert forall|s: int| 0 <= s < 10 implies #[trigger] taken(e, s) by {
                assert(e.slot_used(s));
            }
        }
    }
    assert(!taken(e, key.slot as int)) by {
        if taken(e, key.slot as int) {
            let k = choose|k: int| 0 <= k < e.keys.len() && (#[trigger] e.keys[k]).slot == key.slot as int;
            assert(e.keys[k].slot != key.slot);
        }
    }
    assert forall|s: int| 0 <= s < key.slot implies #[trigger] taken(e, s) by {
        assert(e.slot_used(s));
    }
    assert(after.keys[e.keys.len() as int].target == target);
}

/// A key at a partyline is given to the first endpoint of the name and to nobody else, unless it
/// has one there or has no slot left.
pub proof fn law_a_partyline_key_is_given(
    config: &Config,
    req: AssignRequest,
    line: Seq<char>,
    r: Result<Config, String>,
    i: int,
)
    requires
        call_ensures(assign, (config, req), r),
        req.target@ == TargetView::Partyline(line),
        is_endpoint(config@, req.endpoint@) ==> first_named(config@, req.endpoint@, i),
    ensures
        ({
            let (c, id) = (config@, req.endpoint@);
            &&& !is_endpoint(c, id) ==> refused(
                r,
                "no endpoint called '"@ + id + "'"@,
            )
            &&& is_endpoint(c, id) && reaches(c.endpoints[i], req.target@) ==> refused(
                r,
                "'"@ + id + "' already has a key pointing there; a second one would break mix-minus"@,
            )
            &&& is_endpoint(c, id) && !reaches(c.endpoints[i], req.target@) && full(c.endpoints[i]) ==> refused(
                r,
                "'"@ + id + "' has no free key slots (limit is "@ + decimal(10) + ")"@,
            )
            &&& is_endpoint(c, id) && !reaches(c.endpoints[i], req.target@) && !full(c.endpoints[i]) ==> {
                &&& r matches Ok(n)
                &&& n@.system == c.system
                &&& n@.partylines == c.partylines
                &&& n@.endpoints.len() == c.endpoints.len()
                &&& given_key(c.endpoints[i], req.target@, n@.endpoints[i])
                &&& forall|j: int| 0 <= j < c.endpoints.len() && j != i ==> #[trigger] n@.endpoints[j] == c.endpoints[j]
            }
        }),
{
    let (c, id) = (config@, req.endpoint@);
    lemma_found(c, id);
    if let Some(k) = c.endpoint_at(id) {
        if k < i {
            assert(c.endpoints[k].id != id);
        } else if i < k {
            assert(c.endpoints[i].id != id);
        }
        lemma_taken(c.endpoints[i]);
        if !full(c.endpoints[i]) {
            lemma_given(c.endpoints[i], req.target@);
        }
    }
}

/// A direct key is given to the first endpoint of one name, and a key back to the first of the
/// other unless it has one, and to nobody else; or, where either cannot have it, to neither.
pub proof fn law_a_direct_pair_is_given(
    config: &Config,
    req: AssignRequest,
    other: Seq<char>,
    r: Result<Config, String>,
    i: int,
    o: int,
)
    requires
        call_ensures(assign, (config, req), r),
        req.target@ == TargetView::Direct(other),
        other != req.endpoint@,
        first_named(config@, req.endpoint@, i),
        is_endpoint(config@, other) ==> first_named(config@, other, o),
    ensures
        ({
            let (c, id) = (config@, req.endpoint@);
            let back = TargetView::Direct(id);
            let can = !reaches(c.endpoints[i], req.target@) && !full(c.endpoints[i]);
            &&& reaches(c.endpoints[i], req.target@) ==> refused(
                r,
                "'"@ + id + "' already has a key pointing there; a second one would break mix-minus"@,
            )
            &&& !reaches(c.endpoints[i], req.target@) && full(c.endpoints[i]) ==> refused(
                r,
                "'"@ + id + "' has no free key slots (limit is "@ + decimal(10) + ")"@,
            )
            &&& can && !is_endpoint(c, other) ==> refused(
                r,
                "no endpoint called '"@ + other + "'"@,
            )
            &&& can && is_endpoint(c, other) && !reaches(c.endpoints[o], back) && full(c.endpoints[o]) ==> refused(
                r,
                "'"@ + other + "' has no free key slot for the other half of the direct pair"@,
            )
            &&& can && is_endpoint(c, other) && (reaches(c.endpoints[o], back) || !full(c.endpoints[o])) ==> {
                &&& r matches Ok(n)
                &&& n@.system == c.system
                &&& n@.partylines == c.partylines
                &&& n@.endpoints.len() == c.endpoints.len()
                &&& given_key(c.endpoints[i], req.target@, n@.endpoints[i])
                &&& reaches(c.endpoints[o], back) ==> n@.endpoints[o] == c.endpoints[o]
                &&& !reaches(c.endpoints[o], back) ==> given_key(c.endpoints[o], back, n@.endpoints[o])
                &&& forall|j: int|
                    0 <= j < c.endpoints.len() && j != i && j != o ==> #[trigger] n@.endpoints[j] == c.endpoints[j]
            }
        }),
{
    let (c, id) = (config@, req.endpoint@);
    let t = req.target@;
    lemma_found(c, id);
    lemma_found(c, other);
    let k = c.endpoint_at(id)->0;
    assert(c.endpoints[i].id == id);
    if k < i {
        assert(c.endpoints[k].id != id);
    } else if i < k {
        assert(c.endpoints[i].id != id);
    }
    lemma_taken(c.endpoints[i]);
    if !reaches(c.endpoints[i], t) && !full(c.endpoints[i]) {
        lemma_given(c.endpoints[i], t);
        let half = ConfigView { endpoints: c.endpoints.update(i, c.endpoints[i].assigned(t)), ..c };
        lemma_found(half, other);
        if is_endpoint(c, other) {
            assert(c.endpoints[o].id == other);
            assert(i != o);
            assert(half.endpoints[o] == c.endpoints[o]);
            assert(half.endpoints[o].id == other);
            let p = half.endpoint_at(other)->0;
            assert(half.endpoints[p].id == c.endpoints[p].id);
            if p < o {
                assert(c.endpoints[p].id != other);
            } else if o < p {
                assert(half.endpoints[o].id != other);
            }
            lemma_taken(c.endpoints[o]);
            if !full(c.endpoints[o]) {
                lemma_given(c.endpoints[o], TargetView::Direct(id));
            }
        } else {
            if is_endpoint(half, other) {
                let p = choose|p: int| 0 <= p < half.endpoints.len() && (#[trigger] half.endpoints[p]).id == other;
                assert(c.endpoints[p].id == other);
            }
        }
    }
}

/// Taking a slot away removes the keys in it from the first endpoint of the name and changes
/// nothing else; unless there is nobody of the name, or nothing in the slot.
pub proof fn law_a_slot_is_taken_away(config: &Config, req: UnassignRequest, r: Result<Config, String>, i: int)
    requires
        call_ensures(unassign, (config, req), r),
        is_endpoint(config@, req.endpoint@) ==> first_named(config@, req.endpoint@, i),
    ensures
        ({
            let (c, id) = (config@, req.endpoint@);
            &&& !is_endpoint(c, id) ==> refused(
                r,
                "no endpoint called '"@ + id + "'"@,
            )
            &&& is_endpoint(c, id) && !taken(c.endpoints[i], req.slot as int) ==> refused(
                r,
                "'"@ + id + "' has no key in slot "@ + decimal(req.slot as nat),
            )
            &&& is_endpoint(c, id) && taken(c.endpoints[i], req.slot as int) ==> {
                &&& r matches Ok(n)
                &&& n@.system == c.system
                &&& n@.partylines == c.partylines
                &&& n@.endpoints.len() == c.endpoints.len()
                &&& n@.endpoints[i] == (EndpointView {
                    keys: c.endpoints[i].keys.filter(|k: KeyView| k.slot != req.slot),
                    ..c.endpoints[i]
                })
                &&& forall|j: int| 0 <= j < c.endpoints.len() && j != i ==> #[trigger] n@.endpoints[j] == c.endpoints[j]
            }
        }),
{
    let (c, id) = (config@, req.endpoint@);
    lemma_found(c, id);
    assert(sits_elsewhere(req.slot) =~= (|k: KeyView| k.slot != req.slot));
    if let Some(k) = c.endpoint_at(id) {
        if k < i {
            assert(c.endpoints[k].id != id);
        } else if i < k {
            assert(c.endpoints[i].id != id);
        }
        lemma_taken(c.endpoints[i]);
        assert(c.endpoints[i].slot_used(req.slot as int) <==> taken(c.endpoints[i], req.slot as int));
    }
}

/// Whether key `k` is the first in a slot.
pub open spec fn first_in_slot(e: EndpointView, slot: u8, k: int) -> bool {
    0 <= k < e.keys.len() && e.keys[k].slot == slot && forall|j: int| 0 <= j < k ==> (#[trigger] e.keys[j]).slot != slot
}

/// Changing a key's settings sets what was given to what was given, keeps the rest of that key,
/// and changes nothing else.
pub proof fn law_key_settings_are_set(
    config: &Config,
    req: KeySettings,
    r: Result<Config, String>,
    i: int,
    k: int,
)
    requires
        call_ensures(update_key, (config, req), r),
        is_endpoint(config@, req.endpoint@) ==> first_named(config@, req.endpoint@, i),
        is_endpoint(config@, req.endpoint@) && taken(config@.endpoints[i], req.slot as int) ==> first_in_slot(
            config@.endpoints[i],
            req.slot,
            k,
        ),
    ensures
        ({
            let (c, id) = (config@, req.endpoint@);
            &&& !is_endpoint(c, id) ==> refused(
                r,
                "no endpoint called '"@ + id + "'"@,
            )
            &&& is_endpoint(c, id) && !taken(c.endpoints[i], req.slot as int) ==> refused(
                r,
                "'"@ + id + "' has no key in slot "@ + decimal(req.slot as nat),
            )
            &&& is_endpoint(c, id) && taken(c.endpoints[i], req.slot as int) ==> {
                let old_key = c.endpoints[i].keys[k];
                &&& r matches Ok(n)
                &&& n@.system == c.system
                &&& n@.partylines == c.partylines
                &&& n@.endpoints.len() == c.endpoints.len()
                &&& forall|j: int| 0 <= j < c.endpoints.len() && j != i ==> #[trigger] n@.endpoints[j] == c.endpoints[j]
                &&& n@.endpoints[i] == (EndpointView { keys: n@.endpoints[i].keys, ..c.endpoints[i] })
                &&& n@.endpoints[i].keys.len() == c.endpoints[i].keys.len()
                &&& forall|j: int|
                    0 <= j < c.endpoints[i].keys.len() && j != k ==> #[trigger] n@.endpoints[i].keys[j]
                        == c.endpoints[i].keys[j]
                &&& key_changed(old_key, req, n@.endpoints[i].keys[k])
            }
        }),
{
    let (c, id) = (config@, req.endpoint@);
    lemma_found(c, id);
    if let Some(m) = c.endpoint_at(id) {
        if m < i {
            assert(c.endpoints[m].id != id);
        } else if i < m {
            assert(c.endpoints[i].id != id);
        }
        let e = c.endpoints[i];
        lemma_key_position(e, req.slot as int, 0);
        if let Some(p) = e.key_position(req.slot as int, 0) {
            assert(e.keys[p].slot == req.slot);
            assert(taken(e, req.slot as int));
            if p < k {
                assert(e.keys[p].slot != req.slot);
            } else if k < p {
                assert(e.keys[k].slot != req.slot);
            }
        }
    }
}

/// Whether a key has the settings that were given, and kept the rest.
pub open spec fn key_changed(k: KeyView, s: KeySettings, after: KeyView) -> bool {
    &&& after.slot == k.slot
    &&& after.target == k.target
    &&& after.label == k.label
    &&& s.listen_level_db matches Some(db) ==> after.listen_level_db == db
    &&& s.listen_level_db is None ==> after.listen_level_db == k.listen_level_db
    &&& s.listen_muted matches Some(muted) ==> after.listen_muted == muted
    &&& s.listen_muted is None ==> after.listen_muted == k.listen_muted
    &&& s.talk_mode matches Some(mode) ==> after.talk_mode == mode
    &&& s.talk_mode is None ==> after.talk_mode == k.talk_mode
}

/// Changing an endpoint's settings sets what was given to what was given, keeps the rest of that
/// endpoint, and changes nothing else.
pub proof fn law_endpoint_settings_are_set(
    config: &Config,
    req: EndpointSettings,
    r: Result<Config, String>,
    i: int,
)
    requires
        call_ensures(update_endpoint, (config, req), r),
        is_endpoint(config@, req.endpoint@) ==> first_named(config@, req.endpoint@, i),
    ensures
        ({
            let (c, id) = (config@, req.endpoint@);
            &&& !is_endpoint(c, id) ==> refused(
                r,
                "no endpoint called '"@ + id + "'"@,
            )
            &&& is_endpoint(c, id) ==> {
                let e = c.endpoints[i];
                &&& r matches Ok(n)
                &&& n@.system == c.system
                &&& n@.partylines == c.partylines
                &&& n@.endpoints.len() == c.endpoints.len()
                &&& forall|j: int| 0 <= j < c.endpoints.len() && j != i ==> #[trigger] n@.endpoints[j] == c.endpoints[j]
                &&& n@.endpoints[i].id == e.id
                &&& n@.endpoints[i].name == e.name
                &&& n@.endpoints[i].keys == e.keys
                &&& req.input_gain_db matches Some(db) ==> n@.endpoints[i].input_gain_db == db
                &&& req.input_gain_db is None ==> n@.endpoints[i].input_gain_db == e.input_gain_db
                &&& req.input_muted matches Some(muted) ==> n@.endpoints[i].input_muted == muted
                &&& req.input_muted is None ==> n@.endpoints[i].input_muted == e.input_muted
                &&& req.kind matches Some(kind) ==> n@.endpoints[i].kind == kind
                &&& req.kind is None ==> n@.endpoints[i].kind == e.kind
            }
        }),
{
    let (c, id) = (config@, req.endpoint@);
    lemma_found(c, id);
    if let Some(m) = c.endpoint_at(id) {
        if m < i {
            assert(c.endpoints[m].id != id);
        } else if i < m {
            assert(c.endpoints[i].id != id);
        }
    }
}

// What is shown.

/// The keys of the first `n` endpoints, counted.
pub open spec fn keys_counted(endpoints: Seq<EndpointView>, n: int) -> int
    decreases n,
{
    if n <= 0 {
        0
    } else {
        keys_counted(endpoints, n - 1) + endpoints[n - 1].keys.len()
    }
}

proof fn lemma_keys_counted(endpoints: Seq<EndpointView>, n: int)
    requires
        0 <= n <= endpoints.len(),
    ensures
        keys_counted(endpoints, n) == key_total(endpoints.take(n)),
    decreases n,
{
    if n > 0 {
        lemma_keys_counted(endpoints, n - 1);
        assert(endpoints.take(n).drop_last() =~= endpoints.take(n - 1));
    }
}

/// Whether a response shows a configuration as it is: a stream for every key, those on AES67
/// counted apart, and as many packets a second for each as fit into one.
pub open spec fn shown_as(c: ConfigView, r: StateResponse) -> bool {
    let n = c.endpoints.len() as int;
    let wired = wired_keys(c.endpoints, n);
    &&& r.config@ == c
    &&& r.total_streams == keys_counted(c.endpoints, n)
    &&& r.aes67_streams == wired
    &&& c.system.ptime_samples == 0 ==> r.packets_per_second == 0
    &&& c.system.ptime_samples > 0 ==> r.packets_per_second == (c.system.sample_rate as int
        / c.system.ptime_samples as int) * wired
}

proof fn lemma_counts(c: ConfigView)
    ensures
        key_total(c.endpoints) == keys_counted(c.endpoints, c.endpoints.len() as int),
        c.stream_total() == wired_keys(c.endpoints, c.endpoints.len() as int),
{
    let n = c.endpoints.len() as int;
    lemma_keys_counted(c.endpoints, n);
    lemma_wired_keys(c.endpoints, n);
    assert(c.endpoints.take(n) =~= c.endpoints);
}

/// A configuration is shown as it is, with the problems that validation finds.
pub proof fn law_a_configuration_is_shown_as_it_is(config: &Config, r: StateResponse, problems: Vec<Problem>)
    requires
        call_ensures(describe, (config,), r),
        call_ensures(Config::validate, (config,), problems),
    ensures
        shown_as(config@, r),
        r.problems@.len() == problems@.len(),
        forall|i: int| 0 <= i < problems@.len() ==> (#[trigger] r.problems@[i])@ == problems@[i]@,
{
    lemma_counts(config@);
    assert(problems_view(r.problems@) == problems_view(problems@));
    assert(problems_view(r.problems@).len() == problems_view(problems@).len());
    assert forall|i: int| 0 <= i < problems@.len() implies (#[trigger] r.problems@[i])@ == problems@[i]@ by {
        assert(problems_view(r.problems@)[i] == problems_view(problems@)[i]);
    }
}

/// A configuration is taken exactly where nothing fatal is wrong with it, and is then shown as it
/// is; where it is refused, the answer names something fatal that is wrong with it.
pub proof fn law_only_sound_configurations_are_taken(config: &Config, valid: bool, r: Result<StateResponse, String>)
    requires
        call_ensures(commit, (config,), r),
        call_ensures(Config::is_valid, (config,), valid),
    ensures
        r is Ok <==> forall|kind: KindView| fatal(kind) ==> !(#[trigger] wrong(config@, kind)),
        r matches Ok(state) ==> shown_as(config@, state),
        r matches Err(e) ==> exists|kind: KindView| fatal(kind) && #[trigger] wrong(config@, kind) && e@ == says(kind),
{
    law_valid_means_nothing_fatal(config, valid);
    lemma_counts(config@);
    if r is Err {
        lemma_error_is_wrong(config@, 0);
    }
}

/// A first run has one partyline called Production, and nobody in it.
pub proof fn law_a_first_run_has_one_partyline(r: Config)
    requires
        call_ensures(starter_config, (), r),
    ensures
        r@.system.name == "squawk"@,
        r@.system.sample_rate == 48000,
        r@.system.ptime_samples == 48,
        r@.system.talk_ramp_ms.bits == 0x40A0_0000,
        r@.partylines.len() == 1,
        r@.partylines[0].id == "prod"@,
        r@.partylines[0].name == "Production"@,
        r@.partylines[0].colour is None,
        r@.partylines[0].bus_trim_db.bits == 0,
        r@.endpoints.len() == 0,
{
}

} // verus!
