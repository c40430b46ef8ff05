//! Validation, the model, and edits.

use squawk::config::findings::{Problem, ProblemKind, Severity};
use squawk::config::model::{
    Config, Endpoint, EndpointId, EndpointKind, Key, KeyTarget, Partyline, PartylineId, Single, TalkMode,
    DEFAULT_PTIME_SAMPLES, DEFAULT_SAMPLE_RATE, MAX_KEYS,
};
use squawk::server::edit::{
    add_endpoint, add_partyline, assign, commit, delete_endpoint, delete_partyline, describe, starter_config,
    unassign, update_endpoint, update_key, AssignRequest, EndpointSettings, KeySettings, NewEndpoint, NewPartyline,
    UnassignRequest,
};

fn new_partyline(id: &str, name: &str, colour: Option<String>) -> NewPartyline {
    NewPartyline { id: id.to_string(), name: name.to_string(), colour }
}

fn new_endpoint(id: &str, name: &str, kind: EndpointKind) -> NewEndpoint {
    NewEndpoint { id: id.to_string(), name: name.to_string(), kind }
}

fn new_key(endpoint: &str, target: KeyTarget) -> AssignRequest {
    AssignRequest { endpoint: endpoint.to_string(), target }
}

fn endpoint(id: &str, name: &str) -> Endpoint {
    Endpoint::new(EndpointId::new(id), name.to_string())
}

fn partyline(id: &str, name: &str) -> Partyline {
    Partyline::new(PartylineId::new(id), name.to_string())
}

fn on(id: &str) -> KeyTarget {
    KeyTarget::Partyline(id.into())
}

fn to(id: &str) -> KeyTarget {
    KeyTarget::Direct(id.into())
}

fn two_on_a_partyline() -> Config {
    let mut cfg = Config::default();
    cfg.partylines.push(partyline("pl", "Production"));
    for id in ["a", "b"] {
        let mut e = endpoint(id, id);
        e.assign(on("pl")).unwrap();
        cfg.endpoints.push(e);
    }
    cfg
}

fn has(cfg: &Config, want: &ProblemKind) -> bool {
    cfg.validate().iter().any(|p| &p.kind == want)
}

fn errors(cfg: &Config) -> Vec<ProblemKind> {
    cfg.validate().into_iter().filter(|p| p.severity == Severity::Error).map(|p| p.kind).collect()
}

fn nothing() -> Vec<Problem> {
    vec![]
}

#[test]
fn a_plain_two_person_partyline_is_clean() {
    let cfg = two_on_a_partyline();
    assert_eq!(cfg.validate(), nothing(), "expected no problems at all");
    assert!(cfg.is_valid());
}

#[test]
fn two_keys_at_the_same_target_is_an_error() {
    let mut cfg = two_on_a_partyline();
    cfg.endpoints[0].assign(on("pl")).unwrap();
    assert!(has(&cfg, &ProblemKind::DuplicateKeyTarget { endpoint: "a".into(), slots: (0, 1) }));
    assert!(!cfg.is_valid());
}

#[test]
fn a_key_pointing_at_a_partyline_that_does_not_exist_is_an_error() {
    let mut cfg = two_on_a_partyline();
    cfg.endpoints[0].assign(on("ghost")).unwrap();
    assert!(has(
        &cfg,
        &ProblemKind::UnknownPartyline { endpoint: "a".into(), slot: 1, target: "ghost".into() }
    ));
}

#[test]
fn a_direct_key_to_yourself_is_an_error() {
    let mut cfg = two_on_a_partyline();
    cfg.endpoints[0].assign(to("a")).unwrap();
    assert!(has(&cfg, &ProblemKind::DirectToSelf { endpoint: "a".into(), slot: 1 }));
}

#[test]
fn duplicate_endpoint_ids_are_an_error() {
    let mut cfg = two_on_a_partyline();
    let mut dup = endpoint("a", "another a");
    dup.assign(on("pl")).unwrap();
    cfg.endpoints.push(dup);
    assert!(has(&cfg, &ProblemKind::DuplicateEndpointId("a".into())));
}

#[test]
fn more_than_max_keys_is_an_error() {
    let mut cfg = two_on_a_partyline();
    for i in 0..MAX_KEYS {
        cfg.partylines.push(partyline(&format!("extra{i}"), &format!("Extra {i}")));
    }
    for i in 0..MAX_KEYS {
        cfg.endpoints[0].keys.push(Key::new((i + 1) as u8, on(&format!("extra{i}"))));
    }
    assert!(has(&cfg, &ProblemKind::TooManyKeys { endpoint: "a".into(), count: MAX_KEYS + 1 }));
}

#[test]
fn assign_refuses_to_overfill_an_endpoint() {
    let mut e = endpoint("a", "a");
    for i in 0..MAX_KEYS {
        assert!(e.assign(on(&format!("pl{i}"))).is_some(), "assign {i} should have succeeded");
    }
    assert!(e.free_slot().is_none());
    assert!(e.assign(on("overflow")).is_none());
    assert_eq!(e.keys.len(), MAX_KEYS);
}

#[test]
fn a_one_way_direct_key_warns_but_still_builds() {
    let mut cfg = two_on_a_partyline();
    cfg.endpoints[0].assign(to("b")).unwrap();

    assert!(has(&cfg, &ProblemKind::OneWayDirect { from: "a".into(), to: "b".into() }));
    assert_eq!(errors(&cfg), vec![]);
    assert!(cfg.is_valid());
}

#[test]
fn a_reciprocated_direct_pair_does_not_warn() {
    let mut cfg = two_on_a_partyline();
    cfg.endpoints[0].assign(to("b")).unwrap();
    cfg.endpoints[1].assign(to("a")).unwrap();
    assert_eq!(cfg.validate(), nothing());
}

#[test]
fn empty_and_single_member_partylines_warn() {
    let mut cfg = two_on_a_partyline();
    cfg.partylines.push(partyline("empty", "Nobody"));
    cfg.partylines.push(partyline("lonely", "One"));
    cfg.endpoints[0].assign(on("lonely")).unwrap();

    assert!(has(&cfg, &ProblemKind::EmptyPartyline("empty".into())));
    assert!(has(&cfg, &ProblemKind::LonelyPartyline("lonely".into())));
    assert_eq!(errors(&cfg), vec![]);
}

#[test]
fn an_endpoint_that_can_only_listen_warns() {
    let mut cfg = two_on_a_partyline();
    cfg.endpoints[0].keys[0].talk_mode = TalkMode::ListenOnly;
    assert!(has(&cfg, &ProblemKind::EndpointCannotTalk("a".into())));
}

#[test]
fn membership_is_derived_from_keys() {
    let cfg = two_on_a_partyline();
    let members = cfg.members_of(&"pl".into());
    assert_eq!(members.len(), 2);
    assert_eq!(members[0].0.id.as_str(), "a");
    assert_eq!(members[1].0.id.as_str(), "b");

    let map = cfg.membership_map();
    let pl = map.iter().find(|m| m.partyline.as_str() == "pl").unwrap();
    assert_eq!(pl.members.len(), 2);
}

#[test]
fn a_sample_rate_no_aes67_device_must_support_is_an_error() {
    let mut cfg = two_on_a_partyline();
    cfg.system.sample_rate = 44_101;
    assert!(matches!(errors(&cfg).as_slice(), [ProblemKind::UnsupportedSampleRate(44_101), ..]));
}

#[test]
fn defaults_are_those_of_aes67() {
    let cfg = Config::default();
    assert_eq!(cfg.system.sample_rate, DEFAULT_SAMPLE_RATE);
    assert_eq!(cfg.system.ptime_samples, DEFAULT_PTIME_SAMPLES);
    assert_eq!(f32::from_bits(cfg.system.talk_ramp_ms.bits), 5.0);
    let e = endpoint("a", "a");
    assert_eq!(e.kind, EndpointKind::Desktop);
    assert_eq!(Key::new(0, on("pl")).talk_mode, TalkMode::Latching);
}

#[test]
fn every_other_error_is_found_and_says_why() {
    let text = |cfg: &Config, kind: &ProblemKind| {
        cfg.validate().into_iter().find(|p| &p.kind == kind).expect("found").message
    };

    let mut cfg = two_on_a_partyline();
    cfg.partylines.push(partyline("pl", "Again"));
    assert_eq!(
        text(&cfg, &ProblemKind::DuplicatePartylineId("pl".into())),
        "two partylines share the id 'pl'"
    );

    let mut cfg = two_on_a_partyline();
    cfg.endpoints[0].keys[0].slot = 10;
    assert_eq!(
        text(&cfg, &ProblemKind::KeySlotOutOfRange { endpoint: "a".into(), slot: 10 }),
        "'a' key slot 10 is outside 0..10"
    );

    let mut cfg = two_on_a_partyline();
    cfg.endpoints[0].keys.push(Key::new(0, to("b")));
    assert_eq!(
        text(&cfg, &ProblemKind::DuplicateKeySlot { endpoint: "a".into(), slot: 0 }),
        "'a' has two keys in slot 0"
    );

    let mut cfg = two_on_a_partyline();
    cfg.endpoints[0].assign(to("ghost")).unwrap();
    assert!(has(
        &cfg,
        &ProblemKind::UnknownEndpoint { endpoint: "a".into(), slot: 1, target: "ghost".into() }
    ));

    let mut cfg = two_on_a_partyline();
    cfg.system.ptime_samples = 47;
    assert!(has(
        &cfg,
        &ProblemKind::PtimeNotWholeMilliseconds { ptime: 47, sample_rate: 48_000 }
    ));

    let mut cfg = two_on_a_partyline();
    cfg.endpoints.push(endpoint("c", "c"));
    assert!(has(&cfg, &ProblemKind::EndpointWithNoKeys("c".into())));
}

#[test]
fn errors_come_before_warnings() {
    let mut cfg = two_on_a_partyline();
    cfg.partylines.push(partyline("empty", "Nobody"));
    cfg.endpoints[1].assign(to("b")).unwrap();
    let found = cfg.validate();
    assert_eq!(found.len(), 2);
    assert_eq!(found[0].severity, Severity::Error);
    assert_eq!(found[1].severity, Severity::Warning);
}

#[test]
fn membership_lists_every_target_in_order() {
    let mut cfg = two_on_a_partyline();
    cfg.partylines.push(partyline("aa", "Nobody"));
    cfg.endpoints[1].assign(on("zz")).unwrap();
    let names: Vec<String> =
        cfg.membership_map().iter().map(|m| format!("{}:{}", m.partyline.as_str(), m.members.len())).collect();
    assert_eq!(names, vec!["aa:0", "pl:2", "zz:1"]);
}

// Edits.

fn base_config() -> Config {
    let mut cfg = Config::default();
    cfg.partylines.push(partyline("prod", "Production"));
    cfg.partylines.push(partyline("stage", "Stage Crew"));
    for id in ["a", "b"] {
        let mut e = endpoint(id, id);
        e.assign(on("prod")).unwrap();
        cfg.endpoints.push(e);
    }
    cfg
}

fn keys_of(cfg: &Config, id: &str) -> Vec<(u8, KeyTarget)> {
    let e = cfg.endpoint(&id.into()).expect("endpoint present");
    e.keys.iter().map(|k| (k.slot, k.target.clone())).collect()
}

#[test]
fn state_describes_the_system_the_ui_needs() {
    let state = describe(&base_config());
    assert_eq!(state.total_streams, 2);
    assert_eq!(state.aes67_streams, 2);
    assert_eq!(state.packets_per_second, 2000);
    assert!(state.problems.iter().all(|p| p.severity == Severity::Warning));
    assert!(state.problems.iter().any(|p| matches!(p.kind, ProblemKind::EmptyPartyline(_))));
}

#[test]
fn assigning_gives_the_endpoint_a_key_in_the_next_free_slot() {
    let next = assign(&base_config(), new_key("a", on("stage"))).unwrap();
    let keys = keys_of(&next, "a");
    assert_eq!(keys.len(), 2);
    assert_eq!(keys[1].0, 1, "should land in slot 1");
    assert_eq!(keys[1].1, on("stage"));
    assert!(commit(&next).is_ok());
}

#[test]
fn a_second_key_at_the_same_target_is_refused() {
    let refused = assign(&base_config(), new_key("a", on("prod"))).unwrap_err();
    assert!(refused.contains("mix-minus"), "the error should say why, got: {refused}");
    assert_eq!(refused, "'a' already has a key pointing there; a second one would break mix-minus");
}

#[test]
fn assigning_a_direct_target_creates_both_halves() {
    let next = assign(&base_config(), new_key("a", to("b"))).unwrap();
    assert_eq!(keys_of(&next, "a")[1].1, to("b"));
    assert_eq!(keys_of(&next, "b")[1].1, to("a"));
    let state = commit(&next).unwrap();
    assert!(!state.problems.iter().any(|p| matches!(p.kind, ProblemKind::OneWayDirect { .. })));
}

#[test]
fn removing_a_partyline_takes_its_keys_with_it() {
    let next = delete_partyline(&base_config(), "prod").unwrap();
    assert!(keys_of(&next, "a").is_empty(), "orphaned key survived the cascade");
    assert!(keys_of(&next, "b").is_empty());
    let state = commit(&next).unwrap();
    assert!(state.problems.iter().all(|p| p.severity == Severity::Warning));
}

#[test]
fn removing_an_endpoint_takes_direct_keys_pointing_at_it() {
    let paired = assign(&base_config(), new_key("a", to("b"))).unwrap();
    let next = delete_endpoint(&paired, "b").unwrap();
    assert_eq!(keys_of(&next, "a").len(), 1, "a's direct key to the deleted endpoint should have gone");
    assert_eq!(keys_of(&next, "a")[0].1, on("prod"));
}

#[test]
fn unassign_removes_one_key_by_slot() {
    let next = unassign(&base_config(), UnassignRequest { endpoint: "a".to_string(), slot: 0 }).unwrap();
    assert!(keys_of(&next, "a").is_empty());
    assert_eq!(keys_of(&next, "b").len(), 1, "b should be untouched");
}

#[test]
fn an_endpoint_cannot_take_an_eleventh_key() {
    let mut cfg = base_config();
    for i in 0..MAX_KEYS {
        let pl = format!("pl{i}");
        cfg = add_partyline(&cfg, new_partyline(&pl, &pl, None)).unwrap();
        let next = assign(&cfg, new_key("b", on(&pl)));
        if i < MAX_KEYS - 1 {
            cfg = next.expect("should have fitted");
        } else {
            assert_eq!(next.unwrap_err(), "'b' has no free key slots (limit is 10)");
        }
    }
}

#[test]
fn duplicate_ids_are_refused() {
    let cfg = base_config();
    assert_eq!(
        add_partyline(&cfg, new_partyline("prod", "Another Production", None)).unwrap_err(),
        "a partyline called 'prod' already exists"
    );
    assert_eq!(
        add_endpoint(&cfg, new_endpoint("a", "Another A", EndpointKind::Desktop)).unwrap_err(),
        "an endpoint called 'a' already exists"
    );
}

#[test]
fn changing_an_endpoint_to_mobile_moves_it_off_the_aes67_leg() {
    let settings = EndpointSettings {
        endpoint: "a".to_string(),
        input_gain_db: None,
        input_muted: None,
        kind: Some(EndpointKind::Mobile),
    };
    let next = update_endpoint(&base_config(), settings).unwrap();
    let state = commit(&next).unwrap();
    assert_eq!(state.total_streams, 2);
    assert_eq!(state.aes67_streams, 1);
    assert_eq!(state.packets_per_second, 1000);
}

#[test]
fn edits_of_what_is_not_there_are_refused() {
    let cfg = base_config();
    let muted = |endpoint: &str, slot| KeySettings {
        endpoint: endpoint.to_string(),
        slot,
        listen_level_db: None,
        listen_muted: Some(true),
        talk_mode: None,
    };
    let settings =
        EndpointSettings { endpoint: "x".to_string(), input_gain_db: None, input_muted: Some(true), kind: None };
    assert_eq!(delete_partyline(&cfg, "x").unwrap_err(), "no partyline called 'x'");
    assert_eq!(delete_endpoint(&cfg, "x").unwrap_err(), "no endpoint called 'x'");
    assert_eq!(assign(&cfg, new_key("x", on("prod"))).unwrap_err(), "no endpoint called 'x'");
    assert_eq!(assign(&cfg, new_key("a", to("x"))).unwrap_err(), "no endpoint called 'x'");
    assert_eq!(unassign(&cfg, UnassignRequest { endpoint: "x".to_string(), slot: 0 }).unwrap_err(), "no endpoint called 'x'");
    assert_eq!(unassign(&cfg, UnassignRequest { endpoint: "a".to_string(), slot: 7 }).unwrap_err(), "'a' has no key in slot 7");
    assert_eq!(update_key(&cfg, muted("x", 0)).unwrap_err(), "no endpoint called 'x'");
    assert_eq!(update_key(&cfg, muted("a", 3)).unwrap_err(), "'a' has no key in slot 3");
    assert_eq!(update_endpoint(&cfg, settings).unwrap_err(), "no endpoint called 'x'");
}

#[test]
fn a_full_far_end_cannot_take_the_other_half_of_a_pair() {
    let mut cfg = base_config();
    for i in 0..MAX_KEYS - 1 {
        let pl = format!("pl{i}");
        cfg = add_partyline(&cfg, new_partyline(&pl, &pl, None)).unwrap();
        cfg = assign(&cfg, new_key("b", on(&pl))).unwrap();
    }
    assert_eq!(
        assign(&cfg, new_key("a", to("b"))).unwrap_err(),
        "'b' has no free key slot for the other half of the direct pair"
    );
}

#[test]
fn settings_change_what_is_given_and_nothing_else() {
    let key = KeySettings {
        endpoint: "a".to_string(),
        slot: 0,
        listen_level_db: Some(Single { bits: (-3.0f32).to_bits() }),
        listen_muted: None,
        talk_mode: Some(TalkMode::Momentary),
    };
    let next = update_key(&base_config(), key).unwrap();
    let k = &next.endpoints[0].keys[0];
    assert_eq!(f32::from_bits(k.listen_level_db.bits), -3.0);
    assert!(!k.listen_muted);
    assert_eq!(k.talk_mode, TalkMode::Momentary);
    assert_eq!(next.endpoints[1], base_config().endpoints[1]);

    let settings = EndpointSettings {
        endpoint: "b".to_string(),
        input_gain_db: Some(Single { bits: 6.0f32.to_bits() }),
        input_muted: Some(true),
        kind: None,
    };
    let next = update_endpoint(&base_config(), settings).unwrap();
    assert_eq!(f32::from_bits(next.endpoints[1].input_gain_db.bits), 6.0);
    assert!(next.endpoints[1].input_muted);
    assert_eq!(next.endpoints[1].kind, EndpointKind::Desktop);
}

#[test]
fn an_edit_with_an_error_is_not_committed() {
    let next = assign(&base_config(), new_key("a", on("ghost"))).unwrap();
    let refused = commit(&next).unwrap_err();
    assert_eq!(refused, next.validate()[0].message);
    assert!(refused.contains("ghost"));
}

#[test]
fn a_new_partyline_keeps_its_colour() {
    let next = add_partyline(&base_config(), new_partyline("x", "X", Some("#c8462d".to_string()))).unwrap();
    assert_eq!(next.partylines[2].colour.as_deref(), Some("#c8462d"));
    let next = add_endpoint(&next, new_endpoint("c", "C", EndpointKind::Hardware)).unwrap();
    assert_eq!(next.endpoints[2].kind, EndpointKind::Hardware);
    assert!(next.endpoints[2].keys.is_empty());
}

#[test]
fn a_first_run_has_one_partyline_and_is_valid() {
    let cfg = starter_config();
    assert_eq!(cfg.system.name, "squawk");
    assert_eq!(cfg.partylines.len(), 1);
    assert_eq!(cfg.partylines[0].id.as_str(), "prod");
    assert_eq!(cfg.partylines[0].name, "Production");
    assert!(cfg.is_valid());
}
