//! The mix-minus engine, driven with DC levels: mix-minus is an exact subtraction, so each
//! assertion is an equality against a hand-computed sum.

use std::time::Instant;

use squawk::config::model::{
    Config, Endpoint, EndpointId, EndpointKind, Key, KeyTarget, Partyline, PartylineId, Single, TalkMode,
};
use squawk::engine::limiter::{Limiter, DEFAULT_THRESHOLD_MILLIONTHS};
use squawk::engine::mixer::{BuildError, Engine};
use squawk::engine::plan::{Command, StreamRoute};
use squawk::sample::Sample;

/// Single precision.
#[derive(Clone, Copy, Debug, PartialEq)]
struct F(f32);

impl Sample for F {
    fn from_bits(bits: u32) -> F {
        F(f32::from_bits(bits))
    }
    fn whole(n: i64) -> F {
        F(n as f32)
    }
    fn plus(self, other: F) -> F {
        F(self.0 + other.0)
    }
    fn minus(self, other: F) -> F {
        F(self.0 - other.0)
    }
    fn times(self, other: F) -> F {
        F(self.0 * other.0)
    }
    fn over(self, other: F) -> F {
        F(self.0 / other.0)
    }
    fn power(self, exponent: F) -> F {
        F(self.0.powf(exponent.0))
    }
    fn exponential(self) -> F {
        F(self.0.exp())
    }
    fn logarithm(self) -> F {
        F(self.0.log10())
    }
    fn magnitude(self) -> F {
        F(self.0.abs())
    }
    fn greater(self, other: F) -> F {
        F(self.0.max(other.0))
    }
    fn lesser(self, other: F) -> F {
        F(self.0.min(other.0))
    }
    fn exceeds(self, other: F) -> bool {
        self.0 > other.0
    }
    fn at_most(self, other: F) -> bool {
        self.0 <= other.0
    }
    fn equals(self, other: F) -> bool {
        self.0 == other.0
    }
    fn negated(self) -> F {
        F(-self.0)
    }
    fn rounded(self) -> F {
        F(self.0.round())
    }
    fn fraction(self) -> F {
        F(self.0.fract())
    }
    fn truncated(self) -> i128 {
        self.0 as i128
    }
}

const BLOCK: usize = 48;
const SETTLE: usize = 20;
const EPS: f32 = 1e-6;

fn on(id: &str) -> KeyTarget {
    KeyTarget::Partyline(id.into())
}

fn to(id: &str) -> KeyTarget {
    KeyTarget::Direct(id.into())
}

fn level(db: f32) -> Single {
    Single { bits: db.to_bits() }
}

fn partyline_config(ids: &[&str]) -> Config {
    let mut cfg = Config::default();
    cfg.partylines.push(Partyline::new(PartylineId::new("pl"), "Production".to_string()));
    for id in ids {
        let mut e = Endpoint::new(EndpointId::new(id), id.to_string());
        e.assign(on("pl"));
        cfg.endpoints.push(e);
    }
    cfg
}

fn engine(cfg: &Config) -> Engine<F> {
    match Engine::new(cfg) {
        Ok(eng) => eng,
        Err(e) => panic!("{}", e.text()),
    }
}

fn feed(eng: &mut Engine<F>, dc: &[f32], blocks: usize) {
    let mut buf = vec![F(0.0); dc.len() * BLOCK];
    for (i, v) in dc.iter().enumerate() {
        buf[i * BLOCK..(i + 1) * BLOCK].fill(F(*v));
    }
    for _ in 0..blocks {
        eng.process(&buf);
    }
}

/// The steady value on one endpoint's key feed.
fn feed_value(eng: &Engine<F>, endpoint: usize, slot: u8) -> f32 {
    let s = eng.stream_index(endpoint, slot).expect("stream exists");
    let out = eng.stream_output(s);
    let first = out[0].0;
    for (i, v) in out.iter().enumerate() {
        assert!((v.0 - first).abs() < EPS, "block is not flat at sample {i}: {} vs {first}", v.0);
    }
    first
}

fn talk_all(eng: &mut Engine<F>, n: usize) {
    for i in 0..n {
        eng.apply(Command::SetTalk { endpoint: i, slot: 0, on: true });
    }
}

#[test]
fn three_talkers_each_hear_the_other_two() {
    let cfg = partyline_config(&["a", "b", "c"]);
    let mut eng = engine(&cfg);
    talk_all(&mut eng, 3);

    let dc = [0.1, 0.2, 0.3];
    feed(&mut eng, &dc, SETTLE);

    assert!((feed_value(&eng, 0, 0) - 0.5).abs() < EPS, "a should hear b+c");
    assert!((feed_value(&eng, 1, 0) - 0.4).abs() < EPS, "b should hear a+c");
    assert!((feed_value(&eng, 2, 0) - 0.3).abs() < EPS, "c should hear a+b");
}

#[test]
fn a_lone_talker_hears_exact_silence() {
    let cfg = partyline_config(&["a", "b"]);
    let mut eng = engine(&cfg);
    eng.apply(Command::SetTalk { endpoint: 0, slot: 0, on: true });

    feed(&mut eng, &[0.5, 0.5], SETTLE);

    assert_eq!(feed_value(&eng, 0, 0), 0.0, "talker leaked into their own feed");
    assert!((feed_value(&eng, 1, 0) - 0.5).abs() < EPS, "b should hear a");
}

#[test]
fn bus_trim_does_not_leak_the_talker_into_their_own_feed() {
    let mut cfg = partyline_config(&["a", "b"]);
    cfg.partylines[0].bus_trim_db = level(-6.0);
    let mut eng = engine(&cfg);
    talk_all(&mut eng, 2);

    feed(&mut eng, &[0.4, 0.0], SETTLE);

    assert_eq!(feed_value(&eng, 0, 0), 0.0, "trim leaked the talker into their own feed");

    let trim = 10f32.powf(-6.0 / 20.0);
    assert!(
        (feed_value(&eng, 1, 0) - 0.4 * trim).abs() < EPS,
        "b should hear a at the trimmed level"
    );
}

#[test]
fn listen_only_key_never_reaches_the_bus() {
    let mut cfg = partyline_config(&["a", "b"]);
    cfg.endpoints[0].keys[0].talk_mode = TalkMode::ListenOnly;
    let mut eng = engine(&cfg);

    talk_all(&mut eng, 2);
    feed(&mut eng, &[0.5, 0.2], SETTLE);

    assert!((feed_value(&eng, 1, 0) - 0.0).abs() < EPS, "b heard a listen-only endpoint");
    assert!((feed_value(&eng, 0, 0) - 0.2).abs() < EPS, "a should still hear b");
}

#[test]
fn input_mute_overrides_a_latched_talk_key() {
    let cfg = partyline_config(&["a", "b"]);
    let mut eng = engine(&cfg);
    talk_all(&mut eng, 2);
    feed(&mut eng, &[0.3, 0.0], SETTLE);
    assert!((feed_value(&eng, 1, 0) - 0.3).abs() < EPS);

    eng.apply(Command::SetInputMute { endpoint: 0, muted: true });
    feed(&mut eng, &[0.3, 0.0], SETTLE);
    assert_eq!(feed_value(&eng, 1, 0), 0.0, "hard mute did not override talk");
}

#[test]
fn listen_level_scales_only_the_listener() {
    let cfg = partyline_config(&["a", "b", "c"]);
    let mut eng = engine(&cfg);
    talk_all(&mut eng, 3);
    eng.apply(Command::SetListenLevel { endpoint: 0, slot: 0, db: level(-6.0) });

    feed(&mut eng, &[0.1, 0.2, 0.3], SETTLE);

    let trim = 10f32.powf(-6.0 / 20.0);
    assert!((feed_value(&eng, 0, 0) - 0.5 * trim).abs() < EPS, "a's own level");
    assert!((feed_value(&eng, 1, 0) - 0.4).abs() < EPS, "b unaffected by a's level");
}

#[test]
fn direct_key_carries_only_the_far_end() {
    let mut cfg = partyline_config(&["a", "b", "c"]);
    cfg.endpoints[0].assign(to("b"));
    cfg.endpoints[1].assign(to("a"));

    let mut eng = engine(&cfg);
    talk_all(&mut eng, 3);
    eng.apply(Command::SetTalk { endpoint: 0, slot: 1, on: true });
    eng.apply(Command::SetTalk { endpoint: 1, slot: 1, on: true });

    feed(&mut eng, &[0.1, 0.2, 0.3], SETTLE);

    assert!(
        (feed_value(&eng, 0, 1) - 0.2).abs() < EPS,
        "a's direct key should carry only b, not the partyline"
    );
    assert!((feed_value(&eng, 1, 1) - 0.1).abs() < EPS, "b's direct key should carry only a");
    assert!((feed_value(&eng, 2, 0) - 0.3).abs() < EPS, "c still hears a+b");
}

#[test]
fn a_direct_key_with_no_key_back_is_silent() {
    let mut cfg = partyline_config(&["a", "b"]);
    cfg.endpoints[0].assign(to("b"));
    let mut eng = engine(&cfg);
    talk_all(&mut eng, 2);
    eng.apply(Command::SetTalk { endpoint: 0, slot: 1, on: true });

    feed(&mut eng, &[0.1, 0.2], SETTLE);

    assert_eq!(feed_value(&eng, 0, 1), 0.0, "one-way direct key should be silent");
}

#[test]
fn talk_engages_without_a_step_discontinuity() {
    let cfg = partyline_config(&["a", "b"]);
    let mut eng = engine(&cfg);

    let dc = [0.5f32, 0.0];
    let mut buf = vec![F(0.0); 2 * BLOCK];
    buf[0..BLOCK].fill(F(dc[0]));

    eng.process(&buf);
    eng.apply(Command::SetTalk { endpoint: 0, slot: 0, on: true });

    let listener = eng.stream_index(1, 0).unwrap();
    let mut prev = 0.0f32;
    let mut max_step = 0.0f32;
    let mut reached = 0.0f32;

    for _ in 0..SETTLE {
        eng.process(&buf);
        for s in eng.stream_output(listener) {
            max_step = max_step.max((s.0 - prev).abs());
            prev = s.0;
            reached = reached.max(s.0);
        }
    }

    assert!(max_step < 0.005, "talk engaged with a {max_step} step — that is an audible click");
    assert!((reached - 0.5).abs() < EPS, "ramp should reach unity, got {reached}");
}

#[test]
fn releasing_talk_ramps_back_to_silence() {
    let cfg = partyline_config(&["a", "b"]);
    let mut eng = engine(&cfg);
    eng.apply(Command::SetTalk { endpoint: 0, slot: 0, on: true });
    feed(&mut eng, &[0.5, 0.0], SETTLE);
    assert!((feed_value(&eng, 1, 0) - 0.5).abs() < EPS);

    eng.apply(Command::ClearAllTalk);
    feed(&mut eng, &[0.5, 0.0], SETTLE);
    assert_eq!(feed_value(&eng, 1, 0), 0.0, "talk release did not reach silence");
}

#[test]
fn stream_indices_are_allocated_in_endpoint_then_slot_order() {
    let mut cfg = partyline_config(&["a", "b"]);
    cfg.endpoints[0].assign(to("b"));
    cfg.endpoints[1].assign(to("a"));
    let eng = engine(&cfg);

    let routes = eng.routes();
    assert_eq!(routes.len(), 4);
    assert_eq!((routes[0].endpoint, routes[0].slot), (0, 0));
    assert_eq!((routes[1].endpoint, routes[1].slot), (0, 1));
    assert_eq!((routes[2].endpoint, routes[2].slot), (1, 0));
    assert_eq!((routes[3].endpoint, routes[3].slot), (1, 1));
}

#[test]
fn streams_follow_the_slots_however_the_keys_are_listed() {
    let mut cfg = partyline_config(&["a", "b"]);
    cfg.endpoints[0].assign(to("b"));
    cfg.endpoints[1].assign(to("a"));
    let mut listed = cfg.clone();
    listed.endpoints[0].keys.reverse();
    assert_eq!(listed.endpoints[0].keys[0].slot, 1);
    assert_eq!(listed.endpoints[0].keys[1].slot, 0);

    let mut eng = engine(&listed);
    let places: Vec<_> = eng.routes().iter().map(|r| (r.endpoint, r.slot)).collect();
    assert_eq!(places, [(0, 0), (0, 1), (1, 0), (1, 1)]);
    assert_eq!(eng.stream_index(0, 0), Some(0));
    assert_eq!(eng.stream_index(0, 1), Some(1));

    // The partyline still runs on slot 0 and the direct line on slot 1.
    eng.apply(Command::SetTalk { endpoint: 0, slot: 1, on: true });
    feed(&mut eng, &[0.5, 0.0], SETTLE);
    assert!((feed_value(&eng, 1, 1) - 0.5).abs() < EPS);
    assert_eq!(feed_value(&eng, 1, 0), 0.0);
    eng.apply(Command::SetTalk { endpoint: 1, slot: 0, on: true });
    feed(&mut eng, &[0.0, 0.25], SETTLE);
    assert!((feed_value(&eng, 0, 0) - 0.25).abs() < EPS);
    assert_eq!(feed_value(&eng, 0, 1), 0.0);
}

#[test]
fn keys_listed_backwards_give_streams_in_slot_order() {
    let mut cfg = Config::default();
    cfg.partylines.push(Partyline::new(PartylineId::new("p"), "P".to_string()));
    cfg.partylines.push(Partyline::new(PartylineId::new("q"), "Q".to_string()));
    let mut a = Endpoint::new(EndpointId::new("a"), "a".to_string());
    a.keys = vec![Key::new(1, on("p")), Key::new(0, on("q"))];
    cfg.endpoints.push(a);
    let routes = engine(&cfg).routes().to_vec();
    assert_eq!(routes, [StreamRoute { endpoint: 0, slot: 0 }, StreamRoute { endpoint: 0, slot: 1 }]);
}

#[test]
fn a_config_with_errors_will_not_build() {
    let mut cfg = partyline_config(&["a", "b"]);
    cfg.endpoints[0].assign(on("pl"));
    let built: Result<Engine<F>, BuildError> = Engine::new(&cfg);
    assert!(built.is_err());
    let text = built.err().unwrap().text();
    let first = cfg.validate()[0].message.clone();
    assert_eq!(text, format!("config has 1 validation error(s); first: {first}"));
}

#[test]
fn meters_track_inputs_and_buses() {
    let cfg = partyline_config(&["a", "b"]);
    let mut eng = engine(&cfg);
    talk_all(&mut eng, 2);
    feed(&mut eng, &[0.4, 0.2], SETTLE);

    let m = eng.meters();
    assert!((m.inputs[0].0 - 0.4).abs() < EPS);
    assert!((m.inputs[1].0 - 0.2).abs() < EPS);
    assert!((m.buses[0].0 - 0.6).abs() < EPS, "bus should carry the full sum");
    assert!((m.outputs[0].0 - 0.2).abs() < EPS);
    assert!((m.outputs[1].0 - 0.4).abs() < EPS);
}

#[test]
fn aes67_stream_count_excludes_opus_only_endpoints() {
    let mut cfg = partyline_config(&["a", "b", "phone"]);
    cfg.endpoints[2].kind = EndpointKind::Mobile;
    assert_eq!(cfg.aes67_stream_count(), 2);
    let eng = engine(&cfg);
    assert_eq!(eng.stream_count(), 3);
}

#[test]
fn commands_that_name_nothing_change_nothing() {
    let cfg = partyline_config(&["a", "b"]);
    let mut eng = engine(&cfg);
    eng.apply(Command::SetTalk { endpoint: 9, slot: 0, on: true });
    eng.apply(Command::SetTalk { endpoint: 0, slot: 9, on: true });
    eng.apply(Command::SetInputGain { endpoint: 9, db: level(6.0) });
    feed(&mut eng, &[0.5, 0.5], SETTLE);
    assert_eq!(feed_value(&eng, 0, 0), 0.0);
    assert_eq!(feed_value(&eng, 1, 0), 0.0);
    assert_eq!(eng.endpoint_count(), 2);
    assert_eq!(eng.bus_count(), 1);
    assert_eq!(eng.block_size(), BLOCK);
    assert_eq!(eng.endpoint_index(&"b".into()), Some(1));
    assert_eq!(eng.endpoint_index(&"x".into()), None);
    assert_eq!(eng.output().len(), 2 * BLOCK);
}

#[test]
fn gain_and_listen_mute_act_where_they_are_set() {
    let cfg = partyline_config(&["a", "b", "c"]);
    let mut eng = engine(&cfg);
    talk_all(&mut eng, 3);
    eng.apply(Command::SetInputGain { endpoint: 0, db: level(-20.0) });
    eng.apply(Command::SetListenMute { endpoint: 2, slot: 0, muted: true });
    feed(&mut eng, &[0.5, 0.2, 0.1], SETTLE);
    assert!((feed_value(&eng, 1, 0) - 0.15).abs() < EPS);
    assert_eq!(feed_value(&eng, 2, 0), 0.0);
    eng.apply(Command::SetListenMute { endpoint: 2, slot: 0, muted: false });
    feed(&mut eng, &[0.5, 0.2, 0.1], SETTLE);
    assert!((feed_value(&eng, 2, 0) - 0.25).abs() < EPS);
}

// The limiter.

fn threshold() -> f32 {
    DEFAULT_THRESHOLD_MILLIONTHS as f32 / 1_000_000.0
}

#[test]
fn never_exceeds_threshold() {
    let mut lim = Limiter::<F>::new(F(48_000.0));
    let mut buf = vec![F(4.0); 256];
    buf.extend(std::iter::repeat_n(F(-4.0), 256));
    let peak = lim.process(&mut buf);
    assert!(peak.0 <= threshold() + 1e-6, "peak {} exceeded threshold", peak.0);
    assert!(buf.iter().all(|s| s.0.abs() <= threshold() + 1e-6));
}

#[test]
fn a_limiter_never_makes_a_sample_louder_nor_turns_it_over() {
    for release in [0.0, 0.005, 0.25] {
        let mut lim = Limiter::<F>::with_settings(F(48_000.0), F(0.5), F(release));
        let input: Vec<F> = (0..2_000).map(|i| F(((i * 37) % 101) as f32 / 20.0 - 2.5)).collect();
        let mut buf = input.clone();
        let peak = lim.process(&mut buf);
        for (x, y) in input.iter().zip(&buf) {
            assert!(y.0.abs() <= 0.5 + 1e-6, "{} came out as {}", x.0, y.0);
            assert!(y.0.abs() <= x.0.abs(), "{} came out as {}", x.0, y.0);
            assert!(x.0 * y.0 > 0.0 || x.0 == 0.0 && y.0 == 0.0, "{} came out as {}", x.0, y.0);
        }
        assert_eq!(peak.0, buf.iter().map(|y| y.0.abs()).fold(0.0, f32::max));
    }
}

#[test]
fn passes_quiet_signal_untouched() {
    let mut lim = Limiter::<F>::new(F(48_000.0));
    let mut buf = vec![F(0.25); 128];
    lim.process(&mut buf);
    assert!(buf.iter().all(|s| (s.0 - 0.25).abs() < 1e-6));
}

#[test]
fn the_limiter_recovers_after_a_peak() {
    let mut lim = Limiter::<F>::new(F(48_000.0));
    let mut loud = vec![F(4.0); 64];
    lim.process(&mut loud);
    let mut quiet = vec![F(0.25); 48_000];
    lim.process(&mut quiet);
    assert!(quiet[0].0 < 0.1, "gain should still be held down");
    assert!((quiet[47_999].0 - 0.25).abs() < 1e-3, "gain should have come back");
}

// Scale.

const ENDPOINTS: usize = 32;
const PARTYLINES: usize = 10;
const BLOCKS: usize = 1000;

fn full_system() -> Config {
    let mut cfg = Config::default();
    for p in 0..PARTYLINES {
        cfg.partylines.push(Partyline::new(PartylineId::new(&format!("pl{p}")), format!("Partyline {p}")));
    }
    for e in 0..ENDPOINTS {
        let mut ep = Endpoint::new(EndpointId::new(&format!("ep{e}")), format!("Endpoint {e}"));
        for p in 0..PARTYLINES {
            ep.assign(on(&format!("pl{p}"))).expect("within key limit");
        }
        cfg.endpoints.push(ep);
    }
    cfg
}

#[test]
fn a_fully_loaded_system_mixes_correctly_and_in_time() {
    let cfg = full_system();
    assert_eq!(cfg.aes67_stream_count(), ENDPOINTS * PARTYLINES);

    let mut eng = engine(&cfg);
    assert_eq!(eng.stream_count(), ENDPOINTS * PARTYLINES);

    for e in 0..ENDPOINTS {
        for p in 0..PARTYLINES {
            eng.apply(Command::SetTalk { endpoint: e, slot: p as u8, on: true });
        }
    }

    let dc: Vec<f32> = (0..ENDPOINTS).map(|i| 0.001 * (i + 1) as f32).collect();
    let total: f32 = dc.iter().sum();
    assert!(total < 0.89, "test levels would engage the limiter");

    let mut buf = vec![F(0.0); ENDPOINTS * BLOCK];
    for (i, v) in dc.iter().enumerate() {
        buf[i * BLOCK..(i + 1) * BLOCK].fill(F(*v));
    }

    let start = Instant::now();
    for _ in 0..BLOCKS {
        eng.process(&buf);
    }
    let elapsed = start.elapsed();

    for (e, own) in dc.iter().enumerate() {
        let expected = total - own;
        for p in 0..PARTYLINES {
            let s = eng.stream_index(e, p as u8).unwrap();
            let got = eng.stream_output(s)[0].0;
            assert!(
                (got - expected).abs() < 1e-5,
                "endpoint {e} key {p}: expected {expected}, got {got}"
            );
        }
    }

    let realtime = elapsed.as_secs_f64();
    println!("1.000 s of audio mixed in {:.1} ms", realtime * 1000.0);
    assert!(realtime < 0.5, "one second of audio took {realtime:.3} s to mix");
}
