//! Edits to a configuration, as the assignment matrix makes them.
//!
//! Each edit takes a configuration and gives the next one, or says why not. Whether the
//! next one may be served is decided afterwards: errors reject an edit, warnings do not. A
//! one-way direct key or an empty partyline is a normal intermediate state while someone
//! is patching.

use vstd::prelude::*;
use vstd::string::StringExecFns;

use crate::config::coherence::{coherent, lemma_coherent, lemma_errors_first};
use crate::config::findings::{errors, problems_view, ranked_findings, Problem, Severity};
use crate::config::model::{
    endpoints_view, keys_view, lemma_endpoint_position, optional_text, partylines_view, Config, ConfigView,
    Endpoint, EndpointId, EndpointKind, EndpointView, Key, KeyTarget, KeyView, Partyline, PartylineId,
    PartylineView, Single, TalkMode, TargetView, MAX_KEYS,
};
use crate::text::{decimal, push_decimal};

verus! {

/// A partyline to add.
pub struct NewPartyline {
    pub id: String,
    pub name: String,
    pub colour: Option<String>,
}

/// An endpoint to add.
pub struct NewEndpoint {
    pub id: String,
    pub name: String,
    pub kind: EndpointKind,
}

/// A key to give to an endpoint.
pub struct AssignRequest {
    pub endpoint: String,
    pub target: KeyTarget,
}

/// A key to take from an endpoint.
pub struct UnassignRequest {
    pub endpoint: String,
    pub slot: u8,
}

/// Settings of a key to change; what is absent stays.
pub struct KeySettings {
    pub endpoint: String,
    pub slot: u8,
    pub listen_level_db: Option<Single>,
    pub listen_muted: Option<bool>,
    pub talk_mode: Option<TalkMode>,
}

/// Settings of an endpoint to change; what is absent stays.
pub struct EndpointSettings {
    pub endpoint: String,
    pub input_gain_db: Option<Single>,
    pub input_muted: Option<bool>,
    pub kind: Option<EndpointKind>,
}

/// What an edit gives: the next configuration, or the reason there is none.
pub open spec fn edit_gives(want: Result<ConfigView, Seq<char>>, got: Result<Config, String>) -> bool {
    match got {
        Ok(c) => want == Ok::<ConfigView, Seq<char>>(c@),
        Err(e) => want == Err::<ConfigView, Seq<char>>(e@),
    }
}

/// `before` id `after`.
fn around(before: &str, id: &str, after: &str) -> (r: String)
    ensures
        r@ == before@ + id@ + after@,
{
    let mut out = String::from_str(before);
    out.append(id);
    out.append(after);
    out
}

pub open spec fn no_endpoint(id: Seq<char>) -> Seq<char> {
    "no endpoint called '"@ + id + "'"@
}

pub open spec fn no_key(id: Seq<char>, slot: u8) -> Seq<char> {
    "'"@ + id + "' has no key in slot "@ + decimal(slot as nat)
}

fn no_key_text(id: &str, slot: u8) -> (r: String)
    ensures
        r@ == no_key(id@, slot),
{
    let mut out = around("'", id, "' has no key in slot ");
    push_decimal(&mut out, slot as u64);
    out
}

/// A partyline added, unless the id is taken.
pub open spec fn partyline_added(
    c: ConfigView,
    id: Seq<char>,
    name: Seq<char>,
    colour: Option<Seq<char>>,
) -> Result<ConfigView, Seq<char>> {
    if c.partyline_at(id) is Some {
        Err("a partyline called '"@ + id + "' already exists"@)
    } else {
        Ok(
            ConfigView {
                partylines: c.partylines.push(
                    PartylineView { id, name, colour, bus_trim_db: Single { bits: 0 } },
                ),
                ..c
            },
        )
    }
}

/// Add a partyline.
pub fn add_partyline(config: &Config, req: NewPartyline) -> (r: Result<Config, String>)
    ensures
        edit_gives(partyline_added(config@, req.id@, req.name@, optional_text(req.colour)), r),
{
    let pid = PartylineId::new(req.id.as_str());
    if config.partyline(&pid).is_some() {
        return Err(around("a partyline called '", req.id.as_str(), "' already exists"));
    }
    let mut next = config.clone();
    let mut p = Partyline::new(pid, req.name);
    p.colour = req.colour;
    let ghost before = next.partylines@;
    next.partylines.push(p);
    assert(partylines_view(next.partylines@) =~= partylines_view(before).push(p@));
    Ok(next)
}

/// Keeps what does not carry the id.
pub open spec fn other_partyline(id: Seq<char>) -> spec_fn(PartylineView) -> bool {
    |p: PartylineView| p.id != id
}

/// Keeps what does not carry the id.
pub open spec fn other_endpoint(id: Seq<char>) -> spec_fn(EndpointView) -> bool {
    |e: EndpointView| e.id != id
}

/// Keeps what points elsewhere.
pub open spec fn points_elsewhere(target: TargetView) -> spec_fn(KeyView) -> bool {
    |k: KeyView| k.target != target
}

/// Keeps what sits elsewhere.
pub open spec fn sits_elsewhere(slot: u8) -> spec_fn(KeyView) -> bool {
    |k: KeyView| k.slot != slot
}

/// An endpoint without its keys at a target.
pub open spec fn without_target(e: EndpointView, target: TargetView) -> EndpointView {
    EndpointView { keys: e.keys.filter(points_elsewhere(target)), ..e }
}

/// Endpoints without their keys at a target.
pub open spec fn cascaded(endpoints: Seq<EndpointView>, target: TargetView) -> Seq<EndpointView> {
    Seq::new(endpoints.len(), |i: int| without_target(endpoints[i], target))
}

fn keys_elsewhere(keys: &Vec<Key>, target: &KeyTarget) -> (r: Vec<Key>)
    ensures
        keys_view(r@) == keys_view(keys@).filter(points_elsewhere(target@)),
{
    let mut out: Vec<Key> = Vec::new();
    let mut i: usize = 0;
    let ghost all = keys_view(keys@);
    let ghost p = points_elsewhere(target@);
    proof {
        reveal(Seq::filter);
        assert(keys_view(out@) =~= all.take(0).filter(p));
    }
    while i < keys.len()
        invariant
            i <= keys@.len(),
            all == keys_view(keys@),
            p == points_elsewhere(target@),
            keys_view(out@) == all.take(i as int).filter(p),
        decreases keys@.len() - i,
    {
        proof {
            assert(all.take(i + 1) =~= all.take(i as int).push(all[i as int]));
            all.take(i as int).lemma_filter_push(all[i as int], p);
        }
        let ghost before = out@;
        if !keys[i].target.same(target) {
            let k = keys[i].clone();
            out.push(k);
            assert(keys_view(out@) =~= keys_view(before).push(k@));
        }
        i += 1;
    }
    assert(all.take(i as int) =~= all);
    out
}

fn keys_off_slot(keys: &Vec<Key>, slot: u8) -> (r: Vec<Key>)
    ensures
        keys_view(r@) == keys_view(keys@).filter(sits_elsewhere(slot)),
{
    let mut out: Vec<Key> = Vec::new();
    let mut i: usize = 0;
    let ghost all = keys_view(keys@);
    let ghost p = sits_elsewhere(slot);
    proof {
        reveal(Seq::filter);
        assert(keys_view(out@) =~= all.take(0).filter(p));
    }
    while i < keys.len()
        invariant
            i <= keys@.len(),
            all == keys_view(keys@),
            p == sits_elsewhere(slot),
            keys_view(out@) == all.take(i as int).filter(p),
        decreases keys@.len() - i,
    {
        proof {
            assert(all.take(i + 1) =~= all.take(i as int).push(all[i as int]));
            all.take(i as int).lemma_filter_push(all[i as int], p);
        }
        let ghost before = out@;
        if keys[i].slot != slot {
            let k = keys[i].clone();
            out.push(k);
            assert(keys_view(out@) =~= keys_view(before).push(k@));
        }
        i += 1;
    }
    assert(all.take(i as int) =~= all);
    out
}

/// Endpoints without their keys at a target.
fn cascade(endpoints: &Vec<Endpoint>, target: &KeyTarget) -> (r: Vec<Endpoint>)
    ensures
        endpoints_view(r@) == cascaded(endpoints_view(endpoints@), target@),
{
    let mut out: Vec<Endpoint> = Vec::new();
    let mut i: usize = 0;
    let ghost want = cascaded(endpoints_view(endpoints@), target@);
    while i < endpoints.len()
        invariant
            i <= endpoints@.len(),
            want == cascaded(endpoints_view(endpoints@), target@),
            endpoints_view(out@) == want.take(i as int),
        decreases endpoints@.len() - i,
    {
        let mut e = endpoints[i].clone();
        e.keys = keys_elsewhere(&endpoints[i].keys, target);
        let ghost before = out@;
        assert(e@ == want[i as int]);
        out.push(e);
        i += 1;
        assert(endpoints_view(out@) =~= endpoints_view(before).push(want[i - 1]));
        assert(endpoints_view(out@) =~= want.take(i as int));
    }
    assert(want.take(i as int) =~= want);
    out
}

/// A partyline removed, with every key pointing at it.
pub open spec fn partyline_deleted(c: ConfigView, id: Seq<char>) -> Result<ConfigView, Seq<char>> {
    if c.partyline_at(id) is None {
        Err("no partyline called '"@ + id + "'"@)
    } else {
        Ok(
            ConfigView {
                partylines: c.partylines.filter(other_partyline(id)),
                endpoints: cascaded(c.endpoints, TargetView::Partyline(id)),
                ..c
            },
        )
    }
}

/// Removing a partyline also removes every key pointing at it: leaving them would put the
/// system into a state the engine refuses to build.
pub fn delete_partyline(config: &Config, id: &str) -> (r: Result<Config, String>)
    ensures
        edit_gives(partyline_deleted(config@, id@), r),
{
    let pid = PartylineId::new(id);
    if config.partyline(&pid).is_none() {
        return Err(around("no partyline called '", id, "'"));
    }
    let mut partylines: Vec<Partyline> = Vec::new();
    let mut i: usize = 0;
    let ghost all = config@.partylines;
    let ghost p = other_partyline(id@);
    proof {
        reveal(Seq::filter);
        assert(partylines_view(partylines@) =~= all.take(0).filter(p));
    }
    while i < config.partylines.len()
        invariant
            i <= config.partylines@.len(),
            all == config@.partylines,
            p == other_partyline(id@),
            pid@ == id@,
            partylines_view(partylines@) == all.take(i as int).filter(p),
        decreases config.partylines@.len() - i,
    {
        proof {
            assert(all.take(i + 1) =~= all.take(i as int).push(all[i as int]));
            all.take(i as int).lemma_filter_push(all[i as int], p);
        }
        let ghost before = partylines@;
        if !config.partylines[i].id.same(&pid) {
            let kept = config.partylines[i].clone();
            partylines.push(kept);
            assert(partylines_view(partylines@) =~= partylines_view(before).push(kept@));
        }
        i += 1;
    }
    assert(all.take(i as int) =~= all);
    let endpoints = cascade(&config.endpoints, &KeyTarget::Partyline(pid));
    Ok(Config { system: config.system.clone(), partylines, endpoints })
}

/// An endpoint added, unless the id is taken.
pub open spec fn endpoint_added(
    c: ConfigView,
    id: Seq<char>,
    name: Seq<char>,
    kind: EndpointKind,
) -> Result<ConfigView, Seq<char>> {
    if c.endpoint_at(id) is Some {
        Err("an endpoint called '"@ + id + "' already exists"@)
    } else {
        Ok(
            ConfigView {
                endpoints: c.endpoints.push(
                    EndpointView {
                        id,
                        name,
                        kind,
                        input_gain_db: Single { bits: 0 },
                        input_muted: false,
                        keys: Seq::empty(),
                    },
                ),
                ..c
            },
        )
    }
}

/// Add an endpoint.
pub fn add_endpoint(config: &Config, req: NewEndpoint) -> (r: Result<Config, String>)
    ensures
        edit_gives(endpoint_added(config@, req.id@, req.name@, req.kind), r),
{
    let eid = EndpointId::new(req.id.as_str());
    if config.endpoint(&eid).is_some() {
        return Err(around("an endpoint called '", req.id.as_str(), "' already exists"));
    }
    let mut next = config.clone();
    let mut e = Endpoint::new(eid, req.name);
    e.kind = req.kind;
    let ghost before = next.endpoints@;
    next.endpoints.push(e);
    assert(endpoints_view(next.endpoints@) =~= endpoints_view(before).push(e@));
    Ok(next)
}

/// An endpoint removed, with every direct key pointing at it.
pub open spec fn endpoint_deleted(c: ConfigView, id: Seq<char>) -> Result<ConfigView, Seq<char>> {
    if c.endpoint_at(id) is None {
        Err(no_endpoint(id))
    } else {
        Ok(
            ConfigView {
                endpoints: cascaded(c.endpoints.filter(other_endpoint(id)), TargetView::Direct(id)),
                ..c
            },
        )
    }
}

/// Removing an endpoint also removes every direct key pointing at it.
pub fn delete_endpoint(config: &Config, id: &str) -> (r: Result<Config, String>)
    ensures
        edit_gives(endpoint_deleted(config@, id@), r),
{
    let eid = EndpointId::new(id);
    if config.endpoint(&eid).is_none() {
        return Err(around("no endpoint called '", id, "'"));
    }
    let mut endpoints: Vec<Endpoint> = Vec::new();
    let mut i: usize = 0;
    let ghost all = config@.endpoints;
    let ghost p = other_endpoint(id@);
    proof {
        reveal(Seq::filter);
        assert(endpoints_view(endpoints@) =~= all.take(0).filter(p));
    }
    while i < config.endpoints.len()
        invariant
            i <= config.endpoints@.len(),
            all == config@.endpoints,
            p == other_endpoint(id@),
            eid@ == id@,
            endpoints_view(endpoints@) == all.take(i as int).filter(p),
        decreases config.endpoints@.len() - i,
    {
        proof {
            assert(all.take(i + 1) =~= all.take(i as int).push(all[i as int]));
            all.take(i as int).lemma_filter_push(all[i as int], p);
        }
        let ghost before = endpoints@;
        if !config.endpoints[i].id.same(&eid) {
            let kept = config.endpoints[i].clone();
            endpoints.push(kept);
            assert(endpoints_view(endpoints@) =~= endpoints_view(before).push(kept@));
        }
        i += 1;
    }
    assert(all.take(i as int) =~= all);
    let kept = cascade(&endpoints, &KeyTarget::Direct(eid));
    let mut next = config.clone();
    next.endpoints = kept;
    Ok(next)
}

/// Whether an endpoint has a key at a target.
pub open spec fn points_at(e: EndpointView, target: TargetView) -> bool {
    exists|k: int| 0 <= k < e.keys.len() && #[trigger] e.keys[k].target == target
}

fn has_key_at(e: &Endpoint, target: &KeyTarget) -> (r: bool)
    ensures
        r == points_at(e@, target@),
{
    let mut i: usize = 0;
    while i < e.keys.len()
        invariant
            i <= e.keys@.len(),
            forall|k: int| 0 <= k < i ==> #[trigger] e@.keys[k].target != target@,
        decreases e.keys@.len() - i,
    {
        if e.keys[i].target.same(target) {
            assert(e@.keys[i as int].target == target@);
            return true;
        }
        i += 1;
    }
    false
}

/// An endpoint given a key, and for a direct target the other one a key back.
pub open spec fn key_assigned(c: ConfigView, id: Seq<char>, target: TargetView) -> Result<ConfigView, Seq<char>> {
    match c.endpoint_at(id) {
        None => Err(no_endpoint(id)),
        Some(i) => if points_at(c.endpoints[i], target) {
            Err("'"@ + id + "' already has a key pointing there; a second one would break mix-minus"@)
        } else if c.endpoints[i].lowest_free(0) is None {
            Err("'"@ + id + "' has no free key slots (limit is "@ + decimal(MAX_KEYS as nat) + ")"@)
        } else {
            let half = ConfigView {
                endpoints: c.endpoints.update(i, c.endpoints[i].assigned(target)),
                ..c
            };
            match target {
                TargetView::Partyline(_) => Ok(half),
                TargetView::Direct(other) => key_back(half, other, id),
            }
        },
    }
}

/// The other half of a direct pair, unless it is there already.
pub open spec fn key_back(c: ConfigView, other: Seq<char>, id: Seq<char>) -> Result<ConfigView, Seq<char>> {
    let back = TargetView::Direct(id);
    match c.endpoint_at(other) {
        None => Err(no_endpoint(other)),
        Some(j) => if points_at(c.endpoints[j], back) {
            Ok(c)
        } else if c.endpoints[j].lowest_free(0) is None {
            Err("'"@ + other + "' has no free key slot for the other half of the direct pair"@)
        } else {
            Ok(ConfigView { endpoints: c.endpoints.update(j, c.endpoints[j].assigned(back)), ..c })
        },
    }
}

/// Gives an endpoint of the configuration a key, where a slot is free.
fn give_key(config: &mut Config, id: &EndpointId, target: KeyTarget) -> (r: bool)
    requires
        old(config)@.endpoint_at(id@) is Some,
    ensures
        ({
            let i = old(config)@.endpoint_at(id@)->0;
            let e = old(config)@.endpoints[i];
            &&& r == (e.lowest_free(0) is Some)
            &&& r ==> final(config)@ == (ConfigView {
                endpoints: old(config)@.endpoints.update(i, e.assigned(target@)),
                ..old(config)@
            })
            &&& !r ==> final(config)@ == old(config)@
        }),
{
    let ghost c = config@;
    let ghost i = c.endpoint_at(id@)->0;
    proof {
        lemma_endpoint_position(c.endpoints, id@, 0);
    }
    match config.endpoint_mut(id) {
        Some(e) => {
            let given = e.assign(target).is_some();
            assert(!given ==> c.endpoints.update(i, c.endpoints[i]) =~= c.endpoints);
            given
        },
        None => false,
    }
}

/// Give an endpoint a key pointing at a target.
///
/// For a direct target this creates both halves of the pair: a direct key with no key back
/// carries silence.
pub fn assign(config: &Config, req: AssignRequest) -> (r: Result<Config, String>)
    ensures
        edit_gives(key_assigned(config@, req.endpoint@, req.target@), r),
{
    let endpoint = req.endpoint.as_str();
    let target = &req.target;
    let id = EndpointId::new(endpoint);
    let mut next = config.clone();
    match next.endpoint(&id) {
        None => {
            return Err(around("no endpoint called '", endpoint, "'"));
        },
        Some(e) => {
            if has_key_at(e, target) {
                return Err(
                    around(
                        "'",
                        endpoint,
                        "' already has a key pointing there; a second one would break mix-minus",
                    ),
                );
            }
        },
    }
    if !give_key(&mut next, &id, target.clone()) {
        let mut text = around("'", endpoint, "' has no free key slots (limit is ");
        push_decimal(&mut text, MAX_KEYS as u64);
        text.append(")");
        return Err(text);
    }
    match target {
        KeyTarget::Partyline(_) => Ok(next),
        KeyTarget::Direct(other) => {
            let back = KeyTarget::Direct(id);
            match next.endpoint(other) {
                None => {
                    return Err(around("no endpoint called '", other.as_str(), "'"));
                },
                Some(e) => {
                    if has_key_at(e, &back) {
                        return Ok(next);
                    }
                },
            }
            if !give_key(&mut next, other, back) {
                return Err(
                    around(
                        "'",
                        other.as_str(),
                        "' has no free key slot for the other half of the direct pair",
                    ),
                );
            }
            Ok(next)
        },
    }
}

/// A key removed by its slot.
pub open spec fn key_unassigned(c: ConfigView, id: Seq<char>, slot: u8) -> Result<ConfigView, Seq<char>> {
    match c.endpoint_at(id) {
        None => Err(no_endpoint(id)),
        Some(i) => if !c.endpoints[i].slot_used(slot as int) {
            Err(no_key(id, slot))
        } else {
            Ok(
                ConfigView {
                    endpoints: c.endpoints.update(
                        i,
                        EndpointView {
                            keys: c.endpoints[i].keys.filter(sits_elsewhere(slot)),
                            ..c.endpoints[i]
                        },
                    ),
                    ..c
                },
            )
        },
    }
}

/// Take a key away by its slot.
pub fn unassign(config: &Config, req: UnassignRequest) -> (r: Result<Config, String>)
    ensures
        edit_gives(key_unassigned(config@, req.endpoint@, req.slot), r),
{
    let endpoint = req.endpoint.as_str();
    let slot: u8 = req.slot;
    let id = EndpointId::new(endpoint);
    let mut next = config.clone();
    match next.endpoint_mut(&id) {
        None => Err(around("no endpoint called '", endpoint, "'")),
        Some(e) => {
            if e.key(slot).is_none() {
                return Err(no_key_text(endpoint, slot));
            }
            e.keys = keys_off_slot(&e.keys, slot);
            Ok(next)
        },
    }
}

/// A key with settings changed.
pub open spec fn key_set(k: KeyView, s: KeySettings) -> KeyView {
    KeyView {
        listen_level_db: match s.listen_level_db {
            Some(db) => db,
            None => k.listen_level_db,
        },
        listen_muted: match s.listen_muted {
            Some(muted) => muted,
            None => k.listen_muted,
        },
        talk_mode: match s.talk_mode {
            Some(mode) => mode,
            None => k.talk_mode,
        },
        ..k
    }
}

/// The settings of a key changed.
pub open spec fn key_updated(
    c: ConfigView,
    id: Seq<char>,
    slot: u8,
    s: KeySettings,
) -> Result<ConfigView, Seq<char>> {
    match c.endpoint_at(id) {
        None => Err(no_endpoint(id)),
        Some(i) => match c.endpoints[i].key_position(slot as int, 0) {
            None => Err(no_key(id, slot)),
            Some(k) => Ok(
                ConfigView {
                    endpoints: c.endpoints.update(
                        i,
                        EndpointView {
                            keys: c.endpoints[i].keys.update(k, key_set(c.endpoints[i].keys[k], s)),
                            ..c.endpoints[i]
                        },
                    ),
                    ..c
                },
            ),
        },
    }
}

/// The position of the first key in a slot.
fn key_index(e: &Endpoint, slot: u8) -> (r: Option<usize>)
    ensures
        match r {
            Some(k) => e@.key_position(slot as int, 0) == Some(k as int) && k < e.keys@.len(),
            None => e@.key_position(slot as int, 0) is None,
        },
{
    let mut i: usize = 0;
    while i < e.keys.len()
        invariant
            i <= e.keys@.len(),
            e@.key_position(slot as int, 0) == e@.key_position(slot as int, i as int),
        decreases e.keys@.len() - i,
    {
        if e.keys[i].slot == slot {
            return Some(i);
        }
        i += 1;
    }
    None
}

/// Change the settings of a key.
pub fn update_key(config: &Config, req: KeySettings) -> (r: Result<Config, String>)
    ensures
        edit_gives(key_updated(config@, req.endpoint@, req.slot, req), r),
{
    let endpoint = req.endpoint.as_str();
    let slot: u8 = req.slot;
    let id = EndpointId::new(endpoint);
    let mut next = config.clone();
    match next.endpoint_mut(&id) {
        None => Err(around("no endpoint called '", endpoint, "'")),
        Some(e) => {
            let k: usize = match key_index(e, slot) {
                Some(k) => k,
                None => {
                    return Err(no_key_text(endpoint, slot));
                },
            };
            let ghost before = e.keys@;
            let mut key = e.keys[k].clone();
            if let Some(db) = req.listen_level_db {
                key.listen_level_db = db;
            }
            if let Some(muted) = req.listen_muted {
                key.listen_muted = muted;
            }
            if let Some(mode) = req.talk_mode {
                key.talk_mode = mode;
            }
            e.keys.set(k, key);
            assert(keys_view(e.keys@) =~= keys_view(before).update(k as int, key_set(before[k as int]@, req)));
            Ok(next)
        },
    }
}

/// The settings of an endpoint changed.
pub open spec fn endpoint_updated(
    c: ConfigView,
    id: Seq<char>,
    s: EndpointSettings,
) -> Result<ConfigView, Seq<char>> {
    match c.endpoint_at(id) {
        None => Err(no_endpoint(id)),
        Some(i) => Ok(
            ConfigView {
                endpoints: c.endpoints.update(
                    i,
                    EndpointView {
                        input_gain_db: match s.input_gain_db {
                            Some(db) => db,
                            None => c.endpoints[i].input_gain_db,
                        },
                        input_muted: match s.input_muted {
                            Some(muted) => muted,
                            None => c.endpoints[i].input_muted,
                        },
                        kind: match s.kind {
                            Some(kind) => kind,
                            None => c.endpoints[i].kind,
                        },
                        ..c.endpoints[i]
                    },
                ),
                ..c
            },
        ),
    }
}

/// Change the settings of an endpoint.
pub fn update_endpoint(config: &Config, req: EndpointSettings) -> (r: Result<Config, String>)
    ensures
        edit_gives(endpoint_updated(config@, req.endpoint@, req), r),
{
    let endpoint = req.endpoint.as_str();
    let id = EndpointId::new(endpoint);
    let mut next = config.clone();
    match next.endpoint_mut(&id) {
        None => Err(around("no endpoint called '", endpoint, "'")),
        Some(e) => {
            if let Some(db) = req.input_gain_db {
                e.input_gain_db = db;
            }
            if let Some(muted) = req.input_muted {
                e.input_muted = muted;
            }
            if let Some(kind) = req.kind {
                e.kind = kind;
            }
            Ok(next)
        },
    }
}

/// Everything a display needs to draw itself.
#[derive(Debug)]
pub struct StateResponse {
    pub config: Config,
    pub problems: Vec<Problem>,
    /// Streams the engine mixes, one per key.
    pub total_streams: usize,
    /// Of those, how many go out as discrete AES67 streams.
    pub aes67_streams: usize,
    /// Outbound packets per second that `aes67_streams` imply. Packet rate, and not
    /// bandwidth, is what limits this design.
    pub packets_per_second: u64,
}

/// Keys, counted.
pub open spec fn key_total(endpoints: Seq<EndpointView>) -> nat
    decreases endpoints.len(),
{
    if endpoints.len() == 0 {
        0
    } else {
        key_total(endpoints.drop_last()) + endpoints.last().keys.len()
    }
}

/// Packets per second at the configured packet time.
pub open spec fn packet_rate(c: ConfigView) -> int {
    if c.system.ptime_samples > 0 {
        (c.system.sample_rate / c.system.ptime_samples) * c.stream_total()
    } else {
        0
    }
}

/// Whether the streams and packets of a configuration can be counted.
pub open spec fn countable(c: ConfigView) -> bool {
    &&& key_total(c.endpoints) <= usize::MAX
    &&& c.stream_total() <= usize::MAX
    &&& packet_rate(c) <= u64::MAX
}

proof fn lemma_key_total_grows(endpoints: Seq<EndpointView>, n: int)
    requires
        0 <= n <= endpoints.len(),
    ensures
        key_total(endpoints.take(n)) <= key_total(endpoints),
    decreases endpoints.len() - n,
{
    if n < endpoints.len() {
        lemma_key_total_grows(endpoints, n + 1);
        assert(endpoints.take(n + 1).drop_last() =~= endpoints.take(n));
    } else {
        assert(endpoints.take(n) =~= endpoints);
    }
}

fn count_keys(config: &Config) -> (total: usize)
    requires
        key_total(config@.endpoints) <= usize::MAX,
    ensures
        total == key_total(config@.endpoints),
{
    let mut total: usize = 0;
    let mut i: usize = 0;
    let ghost endpoints = config@.endpoints;
    while i < config.endpoints.len()
        invariant
            i <= config.endpoints@.len(),
            endpoints == config@.endpoints,
            key_total(endpoints) <= usize::MAX,
            total == key_total(endpoints.take(i as int)),
        decreases config.endpoints@.len() - i,
    {
        proof {
            assert(endpoints.take(i + 1).drop_last() =~= endpoints.take(i as int));
            assert(endpoints.take(i + 1).last() == endpoints[i as int]);
            lemma_key_total_grows(endpoints, i + 1);
        }
        total += config.endpoints[i].keys.len();
        i += 1;
    }
    assert(endpoints.take(i as int) =~= endpoints);
    total
}

/// Describe a configuration, with its findings.
pub fn describe(config: &Config) -> (r: StateResponse)
    requires
        countable(config@),
    ensures
        r.config@ == config@,
        problems_view(r.problems@) == ranked_findings(config@),
        r.total_streams == key_total(config@.endpoints),
        r.aes67_streams == config@.stream_total(),
        r.packets_per_second == packet_rate(config@),
{
    let aes67_streams: usize = config.aes67_stream_count();
    let packets_per_second: u64 = if config.system.ptime_samples > 0 {
        let per_stream: u64 = (config.system.sample_rate / config.system.ptime_samples) as u64;
        per_stream * aes67_streams as u64
    } else {
        0
    };
    StateResponse {
        config: config.clone(),
        problems: config.validate(),
        total_streams: count_keys(config),
        aes67_streams,
        packets_per_second,
    }
}

/// Decide whether an edited configuration may be served: with no error it may, and
/// otherwise the first error says why not.
pub fn commit(next: &Config) -> (r: Result<StateResponse, String>)
    requires
        countable(next@),
    ensures
        match r {
            Ok(state) => {
                &&& errors(next@).len() == 0
                &&& coherent(next@)
                &&& state.config@ == next@
                &&& problems_view(state.problems@) == ranked_findings(next@)
                &&& state.total_streams == key_total(next@.endpoints)
                &&& state.aes67_streams == next@.stream_total()
                &&& state.packets_per_second == packet_rate(next@)
            },
            Err(e) => errors(next@).len() > 0 && !coherent(next@) && e@ == errors(next@)[0].message,
        },
{
    let described = describe(next);
    proof {
        lemma_errors_first(next@);
        lemma_coherent(next@);
        assert(problems_view(described.problems@).len() == described.problems@.len());
        if described.problems@.len() > 0 {
            assert(problems_view(described.problems@)[0] == described.problems@[0]@);
        }
    }
    if described.problems.len() > 0 && described.problems[0].severity == Severity::Error {
        return Err(described.problems[0].message.clone());
    }
    Ok(described)
}

/// What a first run starts from: one partyline, so that there is somewhere to click.
pub open spec fn starter(c: ConfigView) -> bool {
    &&& c.system == (crate::config::model::SystemView {
        name: "squawk"@,
        ..crate::config::model::default_system()
    })
    &&& c.partylines == seq![
        PartylineView { id: "prod"@, name: "Production"@, colour: None, bus_trim_db: Single { bits: 0 } },
    ]
    &&& c.endpoints.len() == 0
}

/// A system with nothing in it but one partyline.
pub fn starter_config() -> (r: Config)
    ensures
        starter(r@),
{
    let mut c = Config::default();
    c.system.name = String::from_str("squawk");
    let p = Partyline::new(PartylineId::new("prod"), String::from_str("Production"));
    let ghost before = c.partylines@;
    c.partylines.push(p);
    assert(partylines_view(c.partylines@) =~= seq![p@]);
    c
}

} // verus!
