//! The audio loop's clock, the host and the streams around it.

use std::time::Duration;

use squawk::config::model::{Config, Endpoint, EndpointId, EndpointKind, KeyTarget, Partyline, PartylineId, TalkMode};
use squawk::engine::mixer::BuildError;
use squawk::engine::plan::Command;
use squawk::ptp::message::Timestamp;
use squawk::ptp::servo::{LockState, MediaClock};
use squawk::rtp::addressing::{key_group, key_ssrc, mic_group};
use squawk::rtp::jitter::Pull;
use squawk::rtp::packet::RtpHeader;
use squawk::rtp::transport::{StreamReceiver, StreamSender};
use squawk::sample::Sample;
use squawk::server::audio_io::{is_audio, key_groups, mic_groups, AudioIo};
use squawk::server::clock::{wake_period, MediaPacer, MediaTimeline, Pacer, Wait};
use squawk::server::edit::{
    add_endpoint, add_partyline, assign, delete_endpoint, unassign, AssignRequest, NewEndpoint, NewPartyline,
    UnassignRequest,
};
use squawk::server::host::{
    blocks_per_wake, linear_to_db, publish_due, HostCommand, HostState, Level, PtpHealth, TalkRequest,
};

fn new_partyline(id: &str, name: &str, colour: Option<String>) -> NewPartyline {
    NewPartyline { id: id.to_string(), name: name.to_string(), colour }
}

fn new_endpoint(id: &str, name: &str, kind: EndpointKind) -> NewEndpoint {
    NewEndpoint { id: id.to_string(), name: name.to_string(), kind }
}

fn new_key(endpoint: &str, target: KeyTarget) -> AssignRequest {
    AssignRequest { endpoint: endpoint.to_string(), target }
}

/// Single precision.
#[derive(Clone, Copy, Debug, PartialEq)]
struct F(f32);

impl Sample for F {
    fn from_bits(bits: u32) -> F {
        F(f32::from_bits(bits))
    }
    fn whole(n: i64) -> F {
        F(n as f32)
    }
    fn plus(self, other: F) -> F {
        F(self.0 + other.0)
    }
    fn minus(self, other: F) -> F {
        F(self.0 - other.0)
    }
    fn times(self, other: F) -> F {
        F(self.0 * other.0)
    }
    fn over(self, other: F) -> F {
        F(self.0 / other.0)
    }
    fn power(self, exponent: F) -> F {
        F(self.0.powf(exponent.0))
    }
    fn exponential(self) -> F {
        F(self.0.exp())
    }
    fn logarithm(self) -> F {
        F(self.0.log10())
    }
    fn magnitude(self) -> F {
        F(self.0.abs())
    }
    fn greater(self, other: F) -> F {
        F(self.0.max(other.0))
    }
    fn lesser(self, other: F) -> F {
        F(self.0.min(other.0))
    }
    fn exceeds(self, other: F) -> bool {
        self.0 > other.0
    }
    fn at_most(self, other: F) -> bool {
        self.0 <= other.0
    }
    fn equals(self, other: F) -> bool {
        self.0 == other.0
    }
    fn negated(self) -> F {
        F(-self.0)
    }
    fn rounded(self) -> F {
        F(self.0.round())
    }
    fn fraction(self) -> F {
        F(self.0.fract())
    }
    fn truncated(self) -> i128 {
        self.0 as i128
    }
}

const BLOCK: u32 = 48;
const RATE: u32 = 48_000;

fn ptp(secs: u64, nanos: u32) -> Timestamp {
    Timestamp::new(secs, nanos)
}

fn at(nanos: u128) -> Timestamp {
    ptp((nanos / 1_000_000_000) as u64, (nanos % 1_000_000_000) as u32)
}

#[test]
fn snapshots_are_due_twenty_times_a_second() {
    assert!(!publish_due(0));
    assert!(!publish_due(49_999_999));
    assert!(publish_due(50_000_000));
    assert!(publish_due(u128::MAX));
}

#[test]
fn without_ptp_the_timeline_free_runs_at_exactly_one_block_a_tick() {
    let mut tl = MediaTimeline::new(RATE, BLOCK);
    let first = tl.next(None, false);
    for i in 1..100u32 {
        assert_eq!(tl.next(None, false), first.wrapping_add(i * BLOCK));
    }
    assert_eq!(tl.realignments(), 0);
}

#[test]
fn the_first_ptp_sample_anchors_the_timeline() {
    let mut tl = MediaTimeline::new(RATE, BLOCK);
    let anchor = ptp(1_700_000_000, 0);
    let expected = MediaClock::new(RATE).rtp_timestamp(anchor);
    assert_eq!(tl.next(Some(anchor), false), expected);
}

#[test]
fn spacing_stays_uniform_while_ptp_agrees() {
    let mut tl = MediaTimeline::new(RATE, BLOCK);
    let mut nanos = 1_700_000_000u128 * 1_000_000_000;
    let mut previous = tl.next(Some(ptp(1_700_000_000, 0)), false);

    for _ in 0..5_000 {
        nanos += 1_000_000;
        let next = tl.next(Some(at(nanos)), false);
        assert_eq!(next.wrapping_sub(previous), BLOCK, "spacing must not vary");
        previous = next;
    }
    assert_eq!(tl.realignments(), 0, "an agreeing clock must not need realigning");
}

#[test]
fn a_loop_running_at_the_wrong_rate_is_realigned_and_reported() {
    let mut tl = MediaTimeline::new(RATE, BLOCK);
    let mut nanos = 1_700_000_000u128 * 1_000_000_000;
    tl.next(Some(ptp(1_700_000_000, 0)), false);

    for _ in 0..40_000 {
        nanos += 900_000;
        tl.next(Some(at(nanos)), false);
    }
    assert!(
        tl.realignments() > 0,
        "a sustained 10% rate error should eventually trip the safety bound"
    );
}

#[test]
fn the_timeline_survives_the_rtp_timestamp_wrap() {
    let mut tl = MediaTimeline::new(RATE, BLOCK);
    let secs = (u32::MAX as u64) / RATE as u64;
    let mut nanos = secs as u128 * 1_000_000_000;
    let mut previous = tl.next(Some(ptp(secs, 0)), false);

    for _ in 0..3_000 {
        nanos += 1_000_000;
        let next = tl.next(Some(at(nanos)), false);
        assert_eq!(next.wrapping_sub(previous), BLOCK, "spacing must survive the wrap");
        previous = next;
    }
    assert_eq!(tl.realignments(), 0, "the wrap must not look like drift");
}

#[test]
fn a_clock_step_snaps_the_timeline_without_counting_as_drift() {
    let mut tl = MediaTimeline::new(RATE, BLOCK);
    tl.next(Some(ptp(100, 0)), false);
    assert_eq!(tl.next(Some(ptp(5_000, 0)), true), MediaClock::new(RATE).rtp_timestamp(ptp(5_000, 0)));
    assert_eq!(tl.realignments(), 0);
    // A quarter of a second is still borne; one sample more is not.
    let mut edge = MediaTimeline::new(RATE, BLOCK);
    let start = edge.next(Some(ptp(100, 0)), false);
    let derived = MediaClock::new(RATE).rtp_timestamp(ptp(99, 751_000_000));
    assert_eq!(start.wrapping_add(BLOCK).wrapping_sub(derived), 12_000);
    assert_eq!(edge.next(Some(ptp(99, 751_000_000)), false), start.wrapping_add(BLOCK));
    assert_eq!(edge.realignments(), 0);
}

/// A wall clock that only moves when something waits on it.
struct Wall(u64);

impl Wall {
    /// Waits as told, with PTP running at `num` over `den` of the wall.
    fn wait(&mut self, wait: Wait) -> bool {
        match wait {
            Wait::Missed => true,
            Wait::Until { sleep_nanos, .. } => {
                self.0 += sleep_nanos;
                false
            }
        }
    }
}

#[test]
fn the_pacer_falls_back_to_the_local_clock_without_ptp() {
    let mut wall = Wall(0);
    let mut pacer = MediaPacer::new(2_000_000, 0, false);
    for _ in 0..10 {
        let plan = pacer.plan(None, wall.0 as u128);
        wall.wait(plan);
    }
    let elapsed = Duration::from_nanos(wall.0);
    assert!(
        elapsed >= Duration::from_millis(15) && elapsed < Duration::from_millis(200),
        "10 ticks of 2 ms took {elapsed:?}"
    );
}

#[test]
fn the_pacer_follows_ptp_time_rather_than_the_local_clock() {
    // PTP at half the speed of the wall: each wait for 2 ms of PTP costs 2 ms of wall, in
    // which PTP moves by 1 ms, so the pacer ends up asking for more.
    let base = 1_700_000_000u128 * 1_000_000_000;
    let mut wall = Wall(0);
    let mut pacer = MediaPacer::new(2_000_000, 0, false);
    for _ in 0..10 {
        let now = base + wall.0 as u128 / 2;
        let plan = pacer.plan(Some(now), wall.0 as u128);
        wall.wait(plan);
    }
    let elapsed = Duration::from_nanos(wall.0);
    assert!(
        elapsed >= Duration::from_millis(30),
        "a half-speed clock should have stretched the ticks, took {elapsed:?}"
    );
}

#[test]
fn deadlines_are_counted_up_to_the_last_nanosecond() {
    let mut pacer = MediaPacer::new(1_000, 0, false);
    let now = u128::MAX - 1_500;
    let wait = |deadline| Wait::Until { sleep_nanos: 1_000, deadline, spin: false };
    assert_eq!(pacer.plan(Some(now - 1_000), 0), wait(now));
    assert_eq!(pacer.plan(Some(now), 0), wait(now + 1_000));
    assert_eq!(pacer.resyncs(), 0);
}

#[test]
fn a_ptp_step_resyncs_the_pacer_instead_of_stalling_or_sprinting() {
    let mut pacer = MediaPacer::new(1_000_000, 0, false);
    let base = 1_700_000_000u128 * 1_000_000_000;
    pacer.plan(Some(base), 0);

    let jumped = base + 3_600 * 1_000_000_000u128;
    let plan = pacer.plan(Some(jumped), 0);
    assert_eq!(plan, Wait::Missed, "a step should be reported as a missed deadline");
    assert_eq!(pacer.resyncs(), 1);

    assert_eq!(
        pacer.plan(Some(jumped), 0),
        Wait::Until { sleep_nanos: 2_000_000, deadline: jumped + 2_000_000, spin: false }
    );
    assert_eq!(pacer.plan(Some(base), 0), Wait::Missed, "a step back must not stall");
    assert_eq!(pacer.resyncs(), 2);
}

#[test]
fn a_late_tick_gives_up_the_lost_time() {
    let mut pacer = Pacer::new(1_000_000, 0, true);
    assert_eq!(
        pacer.plan(0),
        Wait::Until { sleep_nanos: 600_000, deadline: 1_000_000, spin: true }
    );
    assert_eq!(pacer.plan(9_000_000), Wait::Missed);
    assert_eq!(
        pacer.plan(9_200_000),
        Wait::Until { sleep_nanos: 400_000, deadline: 10_000_000, spin: true }
    );
    assert_eq!(
        pacer.plan(10_700_000),
        Wait::Until { sleep_nanos: 0, deadline: 11_000_000, spin: true }
    );
}

#[test]
fn a_wake_lasts_as_long_as_its_blocks() {
    assert_eq!(blocks_per_wake(true), 20);
    assert_eq!(blocks_per_wake(false), 1);
    assert_eq!(wake_period(20, 48, 48_000), 20_000_000);
    assert_eq!(wake_period(1, 48, 48_000), 1_000_000);
    assert_eq!(wake_period(1, 6, 48_000), 125_000);
}

// The host.

fn base_config() -> Config {
    let mut cfg = Config::default();
    cfg.partylines.push(Partyline::new(PartylineId::new("prod"), "Production".to_string()));
    for id in ["a", "b"] {
        let mut e = Endpoint::new(EndpointId::new(id), id.to_string());
        e.assign(KeyTarget::Partyline("prod".into())).unwrap();
        cfg.endpoints.push(e);
    }
    cfg
}

fn host(cfg: Config) -> HostState<F> {
    match HostState::new(cfg) {
        Ok(host) => host,
        Err(e) => panic!("{}", e.text()),
    }
}

fn run(host: &mut HostState<F>, dc: &[f32], blocks: usize) {
    let mut mic = Vec::new();
    for v in dc {
        mic.extend(vec![F(*v); BLOCK as usize]);
    }
    for _ in 0..blocks {
        host.process(&mic);
    }
}

fn level(levels: &[Level<F>], id: &str) -> f32 {
    levels.iter().find(|l| l.id == id).unwrap_or_else(|| panic!("no level {id}")).db.0
}

#[test]
fn meters_report_mix_minus() {
    let mut h = host(base_config());
    h.set_talk("a", 0, true);
    run(&mut h, &[0.5, 0.25], 20);
    h.late_tick();
    let snap = h.publish(true, Vec::new(), None);
    assert_eq!(snap.talking, vec!["a:0"]);
    assert_eq!(snap.blocks, 20);
    assert_eq!(snap.generation, 0);
    assert_eq!(snap.late_ticks, 1);
    assert!(snap.simulated);
    assert!(level(&snap.outputs, "a:0") < -119.0, "talker heard themselves");
    assert!(level(&snap.outputs, "b:0") > -30.0, "listener heard nothing");
    assert!((level(&snap.inputs, "b") - 20.0 * 0.25f32.log10()).abs() < 1e-4);
    assert!((level(&snap.buses, "prod") - 20.0 * 0.5f32.log10()).abs() < 1e-4);
}

#[test]
fn peaks_are_held_until_published() {
    let mut h = host(base_config());
    run(&mut h, &[0.5, 0.0], 1);
    run(&mut h, &[0.1, 0.0], 3);
    let snap = h.publish(true, Vec::new(), None);
    assert!((level(&snap.inputs, "a") - 20.0 * 0.5f32.log10()).abs() < 1e-4);
    run(&mut h, &[0.1, 0.0], 1);
    let snap = h.publish(true, Vec::new(), None);
    assert!((level(&snap.inputs, "a") + 20.0).abs() < 1e-4);
    assert_eq!(level(&snap.inputs, "b"), -120.0);
}

#[test]
fn an_edit_drops_no_live_talk_key() {
    let mut h = host(base_config());
    h.set_talk("b", 0, true);
    h.set_talk("a", 0, true);
    h.set_talk("a", 0, false);
    let next = add_partyline(h.config(), new_partyline("stage", "Stage", None)).unwrap();
    h.rebuild(next).ok().expect("valid");
    let snap = h.publish(true, Vec::new(), None);
    assert_eq!(snap.talking, vec!["b:0"]);
    assert_eq!(snap.generation, 1);
    run(&mut h, &[0.5, 0.25], 20);
    let snap = h.publish(true, Vec::new(), None);
    assert!((level(&snap.outputs, "a:0") - 20.0 * 0.25f32.log10()).abs() < 1e-4, "b should still be heard");
    assert_eq!(level(&snap.outputs, "b:0"), -120.0);
}

#[test]
fn intent_for_keys_that_are_gone_is_dropped() {
    let mut h = host(base_config());
    h.set_talk("a", 0, true);
    h.set_talk("b", 0, true);
    h.set_talk("ghost", 3, true);
    let gone = delete_endpoint(h.config(), "b").unwrap();
    h.rebuild(gone).ok().expect("valid");
    assert_eq!(h.publish(true, Vec::new(), None).talking, vec!["a:0"]);
    let back = add_endpoint(h.config(), new_endpoint("b", "b", EndpointKind::Desktop)).unwrap();
    let back = assign(&back, new_key("b", KeyTarget::Partyline("prod".into()))).unwrap();
    h.rebuild(back).ok().expect("valid");
    assert_eq!(h.publish(true, Vec::new(), None).talking, vec!["a:0"], "a dropped intent stays dropped");
}

#[test]
fn a_rebuild_that_cannot_be_built_changes_nothing() {
    let mut h = host(base_config());
    h.set_talk("a", 0, true);
    let mut broken = base_config();
    broken.endpoints[0].assign(KeyTarget::Partyline("ghost".into()));
    match h.rebuild(broken.clone()) {
        Ok(()) => panic!("should not build"),
        Err(BuildError::Invalid(count, first)) => {
            assert_eq!(count, 1);
            assert_eq!(first, broken.validate()[0].message);
        }
    }
    let snap = h.publish(true, Vec::new(), None);
    assert_eq!(snap.generation, 0);
    assert_eq!(snap.talking, vec!["a:0"]);
    let refused: Result<HostState<F>, BuildError> = HostState::new(broken);
    assert!(refused.is_err());
}

#[test]
fn clearing_releases_everyone_and_forgets() {
    let mut h = host(base_config());
    h.set_talk("a", 0, true);
    h.set_talk("b", 0, true);
    run(&mut h, &[0.5, 0.25], 20);
    h.clear_all_talk();
    run(&mut h, &[0.5, 0.25], 20);
    h.publish(true, Vec::new(), None);
    run(&mut h, &[0.5, 0.25], 1);
    let snap = h.publish(true, Vec::new(), None);
    assert!(snap.talking.is_empty());
    assert_eq!(level(&snap.buses, "prod"), -120.0);
}

#[test]
fn a_listen_only_key_is_remembered_but_does_not_talk() {
    let mut cfg = base_config();
    cfg.endpoints[0].keys[0].talk_mode = TalkMode::ListenOnly;
    let mut h = host(cfg);
    h.set_talk("a", 0, true);
    run(&mut h, &[0.5, 0.0], 20);
    let snap = h.publish(true, Vec::new(), None);
    assert_eq!(snap.talking, vec!["a:0"]);
    assert_eq!(level(&snap.outputs, "b:0"), -120.0);
}

#[test]
fn commands_reach_the_engine() {
    let mut h = host(base_config());
    h.set_talk("a", 0, true);
    h.send(Command::SetInputMute { endpoint: 0, muted: true });
    run(&mut h, &[0.5, 0.0], 20);
    let snap = h.publish(true, Vec::new(), None);
    assert_eq!(level(&snap.outputs, "b:0"), -120.0);
    assert_eq!(h.engine().stream_count(), 2);
}

#[test]
fn talking_keys_are_listed_in_order() {
    let mut cfg = base_config();
    cfg = add_endpoint(&cfg, new_endpoint("A", "A", EndpointKind::Desktop)).unwrap();
    let mut h = host(cfg);
    for (id, slot) in [("b", 2), ("a", 1), ("A", 9), ("a", 0), ("b", 0)] {
        h.set_talk(id, slot, true);
    }
    assert_eq!(h.publish(true, Vec::new(), None).talking, vec!["A:9", "a:0", "a:1", "b:0", "b:2"]);
}

#[test]
fn talk_never_reaches_the_config() {
    let mut h = host(base_config());
    h.set_talk("a", 0, true);
    assert_eq!(h.config(), &base_config());
}

#[test]
fn decibels_have_a_floor() {
    assert_eq!(linear_to_db(F(1.0)), F(0.0));
    assert_eq!(linear_to_db(F(0.1)), F(20.0 * 0.1f32.log10()));
    assert_eq!(linear_to_db(F(1e-6)), F(-120.0));
    assert_eq!(linear_to_db(F(0.0)), F(-120.0));
}

// Streams in and out.

#[test]
fn every_stream_has_its_group_and_mobiles_have_none() {
    let mut cfg = base_config();
    cfg.endpoints[1].kind = EndpointKind::Mobile;
    let h = host(cfg.clone());
    assert_eq!(mic_groups(&cfg), vec![Some(mic_group(0)), None]);
    assert_eq!(key_groups(&cfg, h.engine().routes()), vec![Some(key_group(0, 0)), None]);
    let mut io = AudioIo::<F>::new(&cfg, h.engine(), 2);
    assert_eq!(io.health().len(), 1);
    let out = vec![F(0.5); 2 * BLOCK as usize];
    let packets = io.packets_at(&out, 1234);
    assert!(packets[0].is_some());
    assert!(packets[1].is_none());
    assert_eq!(io.receive(1, &vec![vec![0u8; 200]]), 0, "a mobile has no receiver");
    io.sent(1);
}

#[test]
fn mix_minus_survives_a_round_trip_through_packets() {
    let cfg = base_config();
    let mut h = host(cfg.clone());
    let mut io = AudioIo::<F>::new(&cfg, h.engine(), 2);
    let n = BLOCK as usize;
    let mut mics = vec![StreamSender::new(n, 96, 0x5158_0000), StreamSender::new(n, 96, 0x5158_0001)];
    let mut ears = vec![StreamReceiver::<F>::new(n, 2), StreamReceiver::<F>::new(n, 2)];
    h.set_talk("a", 0, true);
    h.set_talk("b", 0, true);

    let mut timeline = MediaTimeline::new(RATE, BLOCK);
    let mut buf = vec![F(0.0); 2 * n];
    let mut heard = vec![Vec::new(), Vec::new()];
    for tick in 0..200 {
        for (i, v) in [0.4f32, 0.0].into_iter().enumerate() {
            let packet = mics[i].packet(&vec![F(v); n]);
            mics[i].advance();
            assert_eq!(io.receive(i, &vec![packet]), 1);
        }
        io.pull_inputs(&mut buf);
        h.process(&buf);
        let ts = timeline.next(None, false);
        let packets = io.packets_at(h.engine().output(), ts);
        for (s, packet) in packets.iter().enumerate() {
            let packet = packet.as_ref().unwrap();
            let (header, _) = RtpHeader::parse(packet).unwrap();
            assert_eq!(header.timestamp, ts, "every stream of a tick carries its timestamp");
            assert_eq!(header.ssrc, key_ssrc(s, 0));
            assert!(ears[s].receive(packet));
            io.sent(s);
        }
        let mut block = vec![F(0.0); n];
        for s in 0..2 {
            if is_audio(ears[s].pull(&mut block)) && tick > 70 {
                heard[s].push(block[0].0);
            }
        }
    }
    assert!(heard[0].len() > 100 && heard[1].len() > 100);
    let worst = heard[0].iter().fold(0.0f32, |m, v| m.max(v.abs()));
    assert!(worst < 0.001, "the talker heard themselves at {worst} after a round trip");
    let peak = heard[1].iter().fold(0.0f32, |m, v| m.max(v.abs()));
    assert!((peak - 0.4).abs() < 0.01, "the listener heard {peak}, expected 0.4");

    let snap = h.publish(false, io.health(), None);
    assert!(!snap.simulated);
    assert_eq!(snap.health.len(), 2, "both endpoints should report receive health");
    for health in &snap.health {
        assert_eq!(health.foreign, 0);
        assert_eq!(health.resyncs, 0);
        assert_eq!(health.lost, 0);
        assert!(health.drift.is_some());
    }
    assert_eq!(snap.health[1].id, "b");
}

#[test]
fn outgoing_timestamps_are_the_media_clock() {
    let cfg = base_config();
    let h = host(cfg.clone());
    let mut io = AudioIo::<F>::new(&cfg, h.engine(), 2);
    let mut timeline = MediaTimeline::new(RATE, BLOCK);
    let start = 1_700_000_000u128 * 1_000_000_000;
    for tick in 0..100u128 {
        let now = at(start + tick * 1_000_000);
        let ts = timeline.next(Some(now), tick == 0);
        let packets = io.packets_at(h.engine().output(), ts);
        let (header, _) = RtpHeader::parse(packets[0].as_ref().unwrap()).unwrap();
        assert_eq!(header.timestamp, MediaClock::new(RATE).rtp_timestamp(now));
        io.sent(0);
        io.sent(1);
    }
    assert_eq!(timeline.realignments(), 0);
}

#[test]
fn failed_sends_are_counted_and_reported_now_and_then() {
    let cfg = unassign(&base_config(), UnassignRequest { endpoint: "b".to_string(), slot: 0 }).unwrap();
    let h = host(cfg.clone());
    let mut io = AudioIo::<F>::new(&cfg, h.engine(), 2);
    let reports = (0..2500).filter(|_| io.send_failed()).count();
    assert_eq!(reports, 2);
    assert_eq!(io.send_errors(), 2500);
    assert!(!is_audio(Pull::Concealed));
}

#[test]
fn a_host_does_what_it_is_told() {
    let mut h = host(base_config());
    let talk = TalkRequest { endpoint: "a".to_string(), slot: 0, on: true };
    assert!(matches!(h.obey(HostCommand::SetTalk(talk)), Ok(false)));
    assert_eq!(h.publish(true, Vec::new(), None).talking, vec!["a:0"]);

    let next = add_partyline(h.config(), new_partyline("more", "More", None)).unwrap();
    assert!(matches!(h.obey(HostCommand::Rebuild(next)), Ok(true)), "the streams have to be bound anew");
    let snap = h.publish(true, Vec::new(), None);
    assert_eq!(snap.generation, 1);
    assert_eq!(snap.talking, vec!["a:0"], "a rebuild drops no live talk key");

    let broken = assign(h.config(), new_key("a", KeyTarget::Partyline("ghost".into()))).unwrap();
    assert!(h.obey(HostCommand::Rebuild(broken)).is_err());
    assert_eq!(h.publish(true, Vec::new(), None).generation, 1);

    assert!(matches!(h.obey(HostCommand::Engine(Command::SetInputMute { endpoint: 0, muted: true })), Ok(false)));
    assert!(matches!(h.obey(HostCommand::ClearAllTalk), Ok(false)));
    assert!(h.publish(true, Vec::new(), None).talking.is_empty());
}

#[test]
fn a_snapshot_says_how_the_clock_is() {
    let mut h = host(base_config());
    assert!(h.publish(true, Vec::new(), None).ptp.is_none());
    let ptp = PtpHealth {
        state: LockState::Locked,
        grandmaster: Some("02-AA".to_string()),
        offset_nanos: -40,
        steps: 1,
        realignments: 2,
    };
    let shown = h.publish(false, Vec::new(), Some(ptp)).ptp.unwrap();
    assert_eq!(shown.state, LockState::Locked);
    assert_eq!(shown.steps, 1);
    assert_eq!(shown.offset_nanos, -40);
    assert_eq!(shown.realignments, 2);
}

#[test]
fn adding_a_key_moves_no_group() {
    let cfg = add_partyline(&base_config(), new_partyline("more", "More", None)).unwrap();
    let next = assign(&cfg, new_key("a", KeyTarget::Partyline("more".into()))).unwrap();
    let (was, is) = (host(cfg.clone()), host(next.clone()));
    let (old_routes, new_routes) = (was.engine().routes(), is.engine().routes());
    let (old_groups, new_groups) = (key_groups(&cfg, old_routes), key_groups(&next, new_routes));
    assert_eq!(new_routes.len(), old_routes.len() + 1);
    for (route, group) in old_routes.iter().zip(&old_groups) {
        let at = new_routes.iter().position(|r| r == route).unwrap();
        assert_eq!(new_groups[at], *group, "{route:?} moved");
    }
    assert_ne!(old_routes[1], new_routes[1], "the streams themselves are numbered anew");
    assert_eq!(mic_groups(&cfg), mic_groups(&next));
}
