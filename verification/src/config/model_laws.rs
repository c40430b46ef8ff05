//! What endpoints, keys and partylines are to begin with, and how they are found and counted.

use vstd::prelude::*;

use crate::config::model::{
    ids_view, lemma_endpoint_position, lemma_key_position, lemma_partyline_position, lines_listed, members_among,
    members_view, memberships, on_partyline, stream_total, Config, ConfigView, Endpoint, EndpointId, EndpointKind,
    EndpointView, Key, KeyTarget, Membership, Partyline, PartylineId, SystemConfig, TalkMode, TargetView,
};
use crate::lists::lemma_filter_positions;
use crate::text::text_before;
use crate::text_laws::{comes_first, lemma_before};

verus! {

// Beginnings.

/// A new key listens at 0 dB, is not muted and latches; a new endpoint is a desktop with no keys
/// whose microphone is at 0 dB; a new partyline is at 0 dB and has no colour.
pub proof fn law_new_things_are_plain(
    slot: u8,
    target: KeyTarget,
    key: Key,
    id: EndpointId,
    name: String,
    endpoint: Endpoint,
    line: PartylineId,
    partyline: Partyline,
)
    requires
        call_ensures(Key::new, (slot, target), key),
        call_ensures(Endpoint::new, (id, name), endpoint),
        call_ensures(Partyline::new, (line, name), partyline),
    ensures
        key@.slot == slot,
        key@.target == target@,
        key@.listen_level_db.bits == 0,
        !key@.listen_muted,
        key@.talk_mode is Latching,
        key@.label is None,
        endpoint@.id == id@,
        endpoint@.name == name@,
        endpoint@.kind is Desktop,
        endpoint@.input_gain_db.bits == 0,
        !endpoint@.input_muted,
        endpoint@.keys.len() == 0,
        partyline@.id == line@,
        partyline@.name == name@,
        partyline@.colour is None,
        partyline@.bus_trim_db.bits == 0,
{
}

/// A system that sets nothing is called squawk, runs at 48 kHz with packets of 48 samples, and
/// fades for five milliseconds; and it has nobody in it.
pub proof fn law_default_system(system: SystemConfig, config: Config)
    requires
        call_ensures(SystemConfig::default, (), system),
        call_ensures(Config::default, (), config),
    ensures
        system@.name == seq!['s', 'q', 'u', 'a', 'w', 'k'],
        system@.sample_rate == 48 * 1000,
        system@.ptime_samples == 48,
        system@.talk_ramp_ms.bits == 0x40A0_0000,
        config@.system == system@,
        config@.partylines.len() == 0,
        config@.endpoints.len() == 0,
{
    reveal_strlit("squawk");
    assert("squawk"@ =~= seq!['s', 'q', 'u', 'a', 'w', 'k']);
}

/// Desktops, panels and external devices take part in AES67; phones and browsers do not. Only
/// listen-only keys cannot talk.
pub proof fn law_kinds_and_modes(kind: EndpointKind, aes67: bool, mode: TalkMode, talks: bool)
    requires
        call_ensures(EndpointKind::uses_aes67, (kind,), aes67),
        call_ensures(TalkMode::can_talk, (mode,), talks),
    ensures
        aes67 <==> kind is Desktop || kind is Hardware || kind is Aes67External,
        talks <==> mode is Latching || mode is Momentary,
{
}

// Finding.

/// An endpoint is found at the first place where its id stands, and only if it stands somewhere.
pub proof fn law_endpoints_are_found_by_id(config: &Config, id: &EndpointId, at: Option<usize>, r: Option<&Endpoint>)
    requires
        call_ensures(Config::endpoint_index, (config, id), at),
        call_ensures(Config::endpoint, (config, id), r),
    ensures
        at is None <==> forall|i: int| 0 <= i < config@.endpoints.len() ==> #[trigger] config@.endpoints[i].id != id@,
        at matches Some(i) ==> i < config@.endpoints.len() && config@.endpoints[i as int].id == id@ && forall|j: int|
            0 <= j < i ==> #[trigger] config@.endpoints[j].id != id@,
        r is Some <==> at is Some,
        r matches Some(e) ==> e@ == config@.endpoints[at->0 as int],
{
    lemma_endpoint_position(config@.endpoints, id@, 0);
}

/// A partyline is found at the first place where its id stands, and only if it stands somewhere.
pub proof fn law_partylines_are_found_by_id(
    config: &Config,
    id: &PartylineId,
    at: Option<usize>,
    r: Option<&Partyline>,
)
    requires
        call_ensures(Config::partyline_index, (config, id), at),
        call_ensures(Config::partyline, (config, id), r),
    ensures
        at is None <==> forall|i: int| 0 <= i < config@.partylines.len() ==> #[trigger] config@.partylines[i].id != id@,
        at matches Some(i) ==> i < config@.partylines.len() && config@.partylines[i as int].id == id@ && forall|j: int|
            0 <= j < i ==> #[trigger] config@.partylines[j].id != id@,
        r is Some <==> at is Some,
        r matches Some(p) ==> p@ == config@.partylines[at->0 as int],
{
    lemma_partyline_position(config@.partylines, id@, 0);
}

/// A key is found by its slot, the first of them, and only if there is one.
pub proof fn law_keys_are_found_by_slot(e: &Endpoint, slot: u8, r: Option<&Key>)
    requires
        call_ensures(Endpoint::key, (e, slot), r),
    ensures
        r is None <==> forall|k: int| 0 <= k < e@.keys.len() ==> (#[trigger] e@.keys[k]).slot != slot,
        r matches Some(key) ==> exists|k: int|
            0 <= k < e@.keys.len() && #[trigger] e@.keys[k] == key@ && key@.slot == slot && forall|j: int|
                0 <= j < k ==> (#[trigger] e@.keys[j]).slot != slot,
{
    lemma_key_position(e@, slot as int, 0);
    if let Some(key) = r {
        let k = e@.key_position(slot as int, 0)->0;
        assert(e@.keys[k] == key@);
    }
}

/// The free slot is the lowest of the ten that no key sits in; there is none exactly where
/// every one of them is taken.
pub proof fn law_free_slot_is_the_lowest(e: &Endpoint, r: Option<u8>)
    requires
        call_ensures(Endpoint::free_slot, (e,), r),
    ensures
        r matches Some(slot) ==> {
            &&& slot < 10
            &&& forall|k: int| 0 <= k < e@.keys.len() ==> (#[trigger] e@.keys[k]).slot != slot
            &&& forall|s: int|
                0 <= s < slot ==> exists|k: int| 0 <= k < e@.keys.len() && (#[trigger] e@.keys[k]).slot == #[trigger] same(s)
        },
        r is None ==> forall|s: int|
            0 <= s < 10 ==> exists|k: int| 0 <= k < e@.keys.len() && (#[trigger] e@.keys[k]).slot == #[trigger] same(s),
{
    assert forall|s: int| 0 <= s < 10 && e@.slot_used(s) implies exists|k: int|
        0 <= k < e@.keys.len() && (#[trigger] e@.keys[k]).slot == #[trigger] same(s) by {
        let k = choose|k: int| 0 <= k < e@.keys.len() && #[trigger] e@.keys[k].slot == s;
        assert(e@.keys[k].slot == same(s));
    }
    if let Some(slot) = r {
        assert forall|k: int| 0 <= k < e@.keys.len() implies (#[trigger] e@.keys[k]).slot != slot by {
            if e@.keys[k].slot == slot {
                assert(e@.slot_used(slot as int));
            }
        }
        assert forall|s: int| 0 <= s < slot implies exists|k: int|
            0 <= k < e@.keys.len() && (#[trigger] e@.keys[k]).slot == #[trigger] same(s) by {
            assert(e@.slot_used(s));
        }
    } else {
        assert forall|s: int| 0 <= s < 10 implies exists|k: int|
            0 <= k < e@.keys.len() && (#[trigger] e@.keys[k]).slot == #[trigger] same(s) by {
            assert(e@.slot_used(s));
        }
    }
}

/// A number, as it is.
pub open spec fn same(n: int) -> int {
    n
}

// Assigning.

proof fn lemma_lowest_free(e: EndpointView, from: int)
    requires
        0 <= from <= 10,
    ensures
        match e.lowest_free(from) {
            Some(s) => from <= s < 10 && !e.slot_used(s) && forall|t: int| from <= t < s ==> #[trigger] e.slot_used(t),
            None => forall|t: int| from <= t < 10 ==> #[trigger] e.slot_used(t),
        },
    decreases 10 - from,
{
    if from < 10 && e.slot_used(from) {
        lemma_lowest_free(e, from + 1);
    }
}

/// Assigning adds one plain key for the target behind the others, in a slot of the ten that no
/// other key has and with none free below it, and changes nothing else; with all ten taken it
/// changes nothing.
pub proof fn law_assigning_adds_one_key(e: EndpointView, target: TargetView)
    ensures
        ({
            let after = e.assigned(target);
            let full = forall|s: int| 0 <= s < 10 ==> #[trigger] e.slot_used(s);
            &&& full ==> after == e
            &&& !full ==> {
                let key = after.keys[e.keys.len() as int];
                &&& after.keys.len() == e.keys.len() + 1
                &&& after == (EndpointView { keys: after.keys, ..e })
                &&& forall|k: int| 0 <= k < e.keys.len() ==> #[trigger] after.keys[k] == e.keys[k]
                &&& key.target == target
                &&& key.slot < 10
                &&& forall|k: int| 0 <= k < e.keys.len() ==> (#[trigger] e.keys[k]).slot != key.slot
                &&& forall|s: int| 0 <= s < key.slot ==> #[trigger] e.slot_used(s)
                &&& key.listen_level_db.bits == 0
                &&& !key.listen_muted
                &&& key.talk_mode is Latching
                &&& key.label is None
            }
        }),
{
    lemma_lowest_free(e, 0);
    if let Some(s) = e.lowest_free(0) {
        assert forall|k: int| 0 <= k < e.keys.len() implies (#[trigger] e.keys[k]).slot != s by {
            if e.keys[k].slot == s {
                assert(e.slot_used(s));
            }
        }
    }
}

// Counting.

/// Whether a key of the configuration is on a partyline.
pub open spec fn is_on_line(c: ConfigView, i: int, k: int, line: Seq<char>) -> bool {
    0 <= i < c.endpoints.len() && 0 <= k < c.endpoints[i].keys.len() && c.endpoints[i].keys[k].target
        == TargetView::Partyline(line)
}

/// Whether `at` lists, in order and each once, the keys on a partyline among the first `n`
/// endpoints.
pub open spec fn lists_line(c: ConfigView, line: Seq<char>, n: int, at: Seq<(int, int)>) -> bool {
    &&& forall|m: int| 0 <= m < at.len() ==> (#[trigger] at[m]).0 < n && is_on_line(c, at[m].0, at[m].1, line)
    &&& forall|m: int, l: int|
        0 <= m < l < at.len() ==> (#[trigger] at[m]).0 < (#[trigger] at[l]).0 || (at[m].0 == at[l].0 && at[m].1
            < at[l].1)
    &&& forall|i: int, k: int| i < n && #[trigger] is_on_line(c, i, k, line) ==> at.contains((i, k))
}

pub proof fn lemma_members(c: ConfigView, line: Seq<char>, n: int) -> (at: Seq<(int, int)>)
    requires
        0 <= n <= c.endpoints.len(),
    ensures
        lists_line(c, line, n, at),
        at.len() == c.endpoints.take(n).flat_map(members_among(line)).len(),
        forall|m: int|
            0 <= m < at.len() ==> #[trigger] c.endpoints.take(n).flat_map(members_among(line))[m] == (
                c.endpoints[at[m].0],
                c.endpoints[at[m].0].keys[at[m].1].slot,
            ),
    decreases n,
{
    let f = members_among(line);
    if n == 0 {
        assert(c.endpoints.take(0).flat_map(f) =~= Seq::<(EndpointView, u8)>::empty()) by {
            reveal_with_fuel(Seq::flatten, 1);
        }
        Seq::empty()
    } else {
        let before = lemma_members(c, line, n - 1);
        c.endpoints.lemma_flat_map_take_append(f, n - 1);
        let e = c.endpoints[n - 1];
        let own = lemma_filter_positions(e.keys, on_partyline(line));
        let more = Seq::new(own.len(), |m: int| (n - 1, own[m]));
        let at = before + more;
        let (old, all) = (c.endpoints.take(n - 1).flat_map(f), c.endpoints.take(n).flat_map(f));
        assert(all =~= old + memberships(e, line));
        assert forall|m: int| 0 <= m < at.len() implies (#[trigger] at[m]).0 < n && is_on_line(
            c,
            at[m].0,
            at[m].1,
            line,
        ) by {
            if m >= before.len() {
                assert(at[m] == more[m - before.len()]);
                assert(on_partyline(line)(e.keys[own[m - before.len()]]));
            }
        }
        assert forall|m: int, l: int| 0 <= m < l < at.len() implies (#[trigger] at[m]).0 < (#[trigger] at[l]).0 || (
        at[m].0 == at[l].0 && at[m].1 < at[l].1) by {
            if m < before.len() && l >= before.len() {
                assert(before[m].0 < n - 1);
            }
        }
        assert forall|i: int, k: int| i < n && #[trigger] is_on_line(c, i, k, line) implies at.contains((i, k)) by {
            if i < n - 1 {
                assert(before.contains((i, k)));
                let m = choose|m: int| 0 <= m < before.len() && before[m] == (i, k);
                assert(at[m] == (i, k));
            } else {
                assert(on_partyline(line)(e.keys[k]));
                let m = choose|m: int| 0 <= m < own.len() && own[m] == k;
                assert(at[before.len() + m] == (i, k));
            }
        }
        assert forall|m: int| 0 <= m < at.len() implies #[trigger] all[m] == (
            c.endpoints[at[m].0],
            c.endpoints[at[m].0].keys[at[m].1].slot,
        ) by {
            if m < before.len() {
                assert(all[m] == old[m]);
            } else {
                assert(all[m] == memberships(e, line)[m - before.len()]);
            }
        }
        at
    }
}

/// A partyline's members are the keys on it, every one of them once, in order of endpoint and
/// then of key, each shown as its endpoint and slot.
pub proof fn law_members_are_the_keys_on_the_line(
    config: &Config,
    id: &PartylineId,
    r: Vec<(&Endpoint, u8)>,
) -> (at: Seq<(int, int)>)
    requires
        call_ensures(Config::members_of, (config, id), r),
    ensures
        at.len() == r@.len(),
        lists_line(config@, id@, config@.endpoints.len() as int, at),
        forall|m: int|
            0 <= m < r@.len() ==> (#[trigger] r@[m]).0@ == config@.endpoints[at[m].0] && r@[m].1
                == config@.endpoints[at[m].0].keys[at[m].1].slot,
{
    let c = config@;
    let n = c.endpoints.len() as int;
    let at = lemma_members(c, id@, n);
    assert(c.endpoints.take(n) =~= c.endpoints);
    assert(members_view(r@).len() == at.len());
    assert forall|m: int| 0 <= m < r@.len() implies (#[trigger] r@[m]).0@ == c.endpoints[at[m].0] && r@[m].1
        == c.endpoints[at[m].0].keys[at[m].1].slot by {
        assert(members_view(r@)[m] == (r@[m].0@, r@[m].1));
        assert(c.endpoints.take(n).flat_map(members_among(id@))[m] == (
            c.endpoints[at[m].0],
            c.endpoints[at[m].0].keys[at[m].1].slot,
        ));
    }
    at
}

/// The membership map has a line for every partyline there is or that some key points at, and
/// no other; each lists the endpoints of the keys on it, in order.
pub proof fn law_membership_map_lists_every_line(
    config: &Config,
    r: Vec<Membership>,
    line: Seq<char>,
    m: int,
) -> (at: Seq<(int, int)>)
    requires
        call_ensures(Config::membership_map, (config,), r),
        0 <= m < r@.len(),
    ensures
        (exists|i: int| 0 <= i < r@.len() && (#[trigger] r@[i]).partyline@ == line) <==> ((exists|p: int|
            0 <= p < config@.partylines.len() && (#[trigger] config@.partylines[p]).id == line) || (exists|
            i: int,
            k: int,
        | #[trigger] is_on_line(config@, i, k, line))),
        lists_line(config@, r@[m].partyline@, config@.endpoints.len() as int, at),
        r@[m].members@.len() == at.len(),
        forall|j: int|
            0 <= j < at.len() ==> (#[trigger] r@[m].members@[j])@ == config@.endpoints[at[j].0].id,
{
    let c = config@;
    let n = c.endpoints.len() as int;
    lemma_partyline_position(c.partylines, line, 0);
    if let Some(p) = c.partyline_at(line) {
        assert(c.partylines[p].id == line);
    }
    if c.partyline_targeted(line) {
        let (i, k) = choose|i: int, k: int|
            #![trigger c.endpoints[i].keys[k]]
            0 <= i < c.endpoints.len() && 0 <= k < c.endpoints[i].keys.len() && c.endpoints[i].keys[k].target
                == TargetView::Partyline(line);
        assert(is_on_line(c, i, k, line));
    }
    if exists|i: int, k: int| #[trigger] is_on_line(c, i, k, line) {
        let (i, k) = choose|i: int, k: int| #[trigger] is_on_line(c, i, k, line);
        assert(c.endpoints[i].keys[k].target == TargetView::Partyline(line));
        assert(c.partyline_targeted(line));
    }
    if c.partyline_at(line) is Some || c.partyline_targeted(line) {
        assert(lines_listed(c, r@));
    }
    let at = lemma_members(c, r@[m].partyline@, n);
    assert(c.endpoints.take(n) =~= c.endpoints);
    let ids = ids_view(r@[m].members@);
    assert(ids == c.member_ids(r@[m].partyline@));
    assert forall|j: int| 0 <= j < at.len() implies (#[trigger] r@[m].members@[j])@ == c.endpoints[at[j].0].id by {
        assert(ids[j] == r@[m].members@[j]@);
        assert(c.endpoints.take(n).flat_map(members_among(r@[m].partyline@))[j] == (
            c.endpoints[at[j].0],
            c.endpoints[at[j].0].keys[at[j].1].slot,
        ));
    }
    at
}

/// The membership map is in order of partyline name, each once.
pub proof fn law_membership_map_is_in_order(config: &Config, r: Vec<Membership>, i: int, j: int)
    requires
        call_ensures(Config::membership_map, (config,), r),
        0 <= i < j < r@.len(),
    ensures
        comes_first(r@[i].partyline@, r@[j].partyline@),
{
    lemma_before(r@[i].partyline@, r@[j].partyline@);
    assert(text_before(r@[i].partyline@, r@[j].partyline@));
}

/// The keys of desktops, panels and external devices among the first `n` endpoints, counted.
pub open spec fn wired_keys(endpoints: Seq<EndpointView>, n: int) -> int
    decreases n,
{
    if n <= 0 {
        0
    } else {
        let e = endpoints[n - 1];
        wired_keys(endpoints, n - 1) + if e.kind is Desktop || e.kind is Hardware || e.kind is Aes67External {
            e.keys.len() as int
        } else {
            0
        }
    }
}

pub proof fn lemma_wired_keys(endpoints: Seq<EndpointView>, n: int)
    requires
        0 <= n <= endpoints.len(),
    ensures
        wired_keys(endpoints, n) == stream_total(endpoints.take(n)),
    decreases n,
{
    if n > 0 {
        lemma_wired_keys(endpoints, n - 1);
        assert(endpoints.take(n).drop_last() =~= endpoints.take(n - 1));
    }
}

/// There is one AES67 stream for each key of a desktop, a panel or an external device.
pub proof fn law_every_wired_key_is_a_stream(config: &Config, r: usize)
    requires
        call_ensures(Config::aes67_stream_count, (config,), r),
    ensures
        r == wired_keys(config@.endpoints, config@.endpoints.len() as int),
{
    let n = config@.endpoints.len() as int;
    lemma_wired_keys(config@.endpoints, n);
    assert(config@.endpoints.take(n) =~= config@.endpoints);
}

} // verus!
