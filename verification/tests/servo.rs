//! The servo, the slave, the port and the shared clock.

use std::time::{Duration, Instant};

use squawk::ptp::message::{
    Announce, Body, ClockIdentity, ClockQuality, Flags, Header, Message, MessageType, PortIdentity, Timestamp,
    HEADER_LEN, TIMESTAMP_LEN,
};
use squawk::ptp::port::{PtpPort, AES67_DEFAULT_DOMAIN};
use squawk::ptp::servo::{measure, DelaySample, LockState, Measurement, MediaClock, Servo, SyncSample};
use squawk::ptp::shared::{timestamp_from_nanos, SharedClock};
use squawk::ptp::slave::{Event, SlaveState};
use squawk::ptp::testing::Grandmaster;
use squawk::sample::Sample;

/// Double precision.
#[derive(Clone, Copy, Debug, PartialEq)]
struct D(f64);

impl Sample for D {
    fn from_bits(bits: u32) -> D {
        D(f32::from_bits(bits) as f64)
    }
    fn whole(n: i64) -> D {
        D(n as f64)
    }
    fn plus(self, other: D) -> D {
        D(self.0 + other.0)
    }
    fn minus(self, other: D) -> D {
        D(self.0 - other.0)
    }
    fn times(self, other: D) -> D {
        D(self.0 * other.0)
    }
    fn over(self, other: D) -> D {
        D(self.0 / other.0)
    }
    fn power(self, exponent: D) -> D {
        D(self.0.powf(exponent.0))
    }
    fn exponential(self) -> D {
        D(self.0.exp())
    }
    fn logarithm(self) -> D {
        D(self.0.log10())
    }
    fn magnitude(self) -> D {
        D(self.0.abs())
    }
    fn greater(self, other: D) -> D {
        D(self.0.max(other.0))
    }
    fn lesser(self, other: D) -> D {
        D(self.0.min(other.0))
    }
    fn exceeds(self, other: D) -> bool {
        self.0 > other.0
    }
    fn at_most(self, other: D) -> bool {
        self.0 <= other.0
    }
    fn equals(self, other: D) -> bool {
        self.0 == other.0
    }
    fn negated(self) -> D {
        D(-self.0)
    }
    fn rounded(self) -> D {
        D(self.0.round())
    }
    fn fraction(self) -> D {
        D(self.0.fract())
    }
    fn truncated(self) -> i128 {
        self.0 as i128
    }
}

fn ts(secs: u64, nanos: u32) -> Timestamp {
    Timestamp::new(secs, nanos)
}

#[test]
fn a_symmetric_path_gives_the_exact_offset_and_delay() {
    let sync = SyncSample { t1: ts(100, 0), t2: ts(100, 1_005_000), correction_nanos: 0 };
    let delay = DelaySample { t3: ts(100, 501_005_000), t4: ts(100, 500_010_000), correction_nanos: 0 };
    let m = measure(sync, delay);
    assert_eq!(m.delay_nanos, 5_000, "one-way delay");
    assert_eq!(m.offset_nanos, 1_000_000, "slave is 1 ms fast");
}

#[test]
fn asymmetry_lands_in_the_offset_at_half_its_size() {
    let sync = SyncSample { t1: ts(0, 0), t2: ts(0, 10_000), correction_nanos: 0 };
    let delay = DelaySample { t3: ts(0, 100_000), t4: ts(0, 102_000), correction_nanos: 0 };
    let m = measure(sync, delay);

    assert_eq!(m.delay_nanos, 6_000, "mean of 10 us and 2 us");
    assert_eq!(
        m.offset_nanos, 4_000,
        "half the 8 us asymmetry, reported as clock error that is not there"
    );
}

#[test]
fn the_correction_field_is_removed_from_both_directions() {
    let sync = SyncSample { t1: ts(0, 0), t2: ts(0, 25_000), correction_nanos: 20_000 };
    let delay = DelaySample { t3: ts(0, 50_000), t4: ts(0, 75_000), correction_nanos: 20_000 };
    let m = measure(sync, delay);
    assert_eq!(m.delay_nanos, 5_000, "residence time should not look like path delay");
    assert_eq!(m.offset_nanos, 0);
}

#[test]
fn a_large_initial_offset_is_stepped_not_slewed() {
    let mut servo = Servo::<D>::new();
    let state = servo.update(Measurement { offset_nanos: 500_000_000, delay_nanos: 5_000 });
    assert_eq!(state, LockState::Locking);
    assert_eq!(servo.steps(), 1);
    assert_eq!(servo.local_to_ptp_offset(), -500_000_000);
}

#[test]
fn a_saturated_reading_is_rejected() {
    for offset_nanos in [i64::MAX, i64::MIN] {
        let mut servo = Servo::<D>::new();
        assert_eq!(servo.update(Measurement { offset_nanos, delay_nanos: 0 }), LockState::Unlocked);
        assert_eq!(servo.local_to_ptp_offset(), 0);
        assert_eq!(servo.steps(), 0);
        assert_eq!(servo.samples(), 1);
    }
    let mut servo = Servo::<D>::new();
    for _ in 0..8 {
        servo.update(Measurement { offset_nanos: 50, delay_nanos: 0 });
    }
    assert_eq!(servo.state(), LockState::Locked);
    let applied = servo.local_to_ptp_offset();
    assert_eq!(servo.update(Measurement { offset_nanos: i64::MAX, delay_nanos: 0 }), LockState::Locked);
    assert_eq!(servo.local_to_ptp_offset(), applied);
    let largest = Measurement { offset_nanos: i64::MAX - 1, delay_nanos: 0 };
    assert_eq!(servo.update(largest), LockState::Locking, "the largest reading that says anything");
    assert_eq!(servo.steps(), 1);
}

#[test]
fn the_servo_converges_on_a_steady_offset() {
    let mut servo = Servo::<D>::new();
    let mut true_offset = 20_000i64;
    for _ in 0..200 {
        let applied = servo.local_to_ptp_offset();
        let measured = true_offset + applied;
        servo.update(Measurement { offset_nanos: measured, delay_nanos: 5_000 });
        true_offset = 20_000;
    }
    assert_eq!(servo.state(), LockState::Locked);
    assert!(
        servo.last_offset_nanos().abs() < 1_000,
        "should have converged, residual {} ns",
        servo.last_offset_nanos()
    );
}

#[test]
fn the_servo_rejects_timestamp_jitter_rather_than_chasing_it() {
    let mut servo = Servo::<D>::new();
    let mut seed = 12345u64;
    let mut worst_after_settle = 0i64;

    for i in 0..400 {
        seed = seed.wrapping_mul(6364136223846793005).wrapping_add(1442695040888963407);
        let jitter = ((seed >> 33) % 30_001) as i64 - 15_000;
        let measured = servo.local_to_ptp_offset() + jitter;
        servo.update(Measurement { offset_nanos: measured, delay_nanos: 5_000 });
        if i > 200 {
            worst_after_settle = worst_after_settle.max(servo.local_to_ptp_offset().abs());
        }
    }
    assert!(
        worst_after_settle < 15_000,
        "servo amplified the input jitter to {worst_after_settle} ns"
    );
}

#[test]
fn a_single_outlier_does_not_drop_lock() {
    let mut servo = Servo::<D>::new();
    for _ in 0..40 {
        servo.update(Measurement { offset_nanos: 0, delay_nanos: 5_000 });
    }
    assert_eq!(servo.state(), LockState::Locked);

    servo.update(Measurement { offset_nanos: 400_000, delay_nanos: 5_000 });
    assert_eq!(servo.state(), LockState::Locked, "one outlier should cost margin, not lock");
}

#[test]
fn sustained_bad_samples_do_drop_lock() {
    let mut servo = Servo::<D>::new();
    for _ in 0..40 {
        servo.update(Measurement { offset_nanos: 0, delay_nanos: 5_000 });
    }
    assert_eq!(servo.state(), LockState::Locked);

    for _ in 0..6 {
        servo.update(Measurement { offset_nanos: 400_000, delay_nanos: 5_000 });
    }
    assert_eq!(servo.state(), LockState::Locking, "a real loss of lock must be reported");
}

#[test]
fn the_integral_is_bounded_so_an_outage_does_not_wind_it_up() {
    let mut servo = Servo::<D>::new();
    for _ in 0..10_000 {
        servo.update(Measurement { offset_nanos: 90_000, delay_nanos: 5_000 });
    }
    assert!(servo.freq_ppb().0.abs() <= 1_000_000.0, "integral wound up to {}", servo.freq_ppb().0);
}

#[test]
fn rtp_timestamps_are_ptp_time_counted_in_samples() {
    let mc = MediaClock::new(48_000);
    let a = mc.rtp_timestamp(ts(1_700_000_000, 0));
    let b = mc.rtp_timestamp(ts(1_700_000_001, 0));
    assert_eq!(b.wrapping_sub(a), 48_000);

    let c = mc.rtp_timestamp(ts(1_700_000_000, 1_000_000));
    assert_eq!(c.wrapping_sub(a), 48);
}

#[test]
fn two_senders_on_the_same_grandmaster_agree_exactly() {
    let a = MediaClock::new(48_000);
    let b = MediaClock::new(48_000);
    let instant = ts(1_700_123_456, 789_000_000);
    assert_eq!(a.rtp_timestamp(instant), b.rtp_timestamp(instant));
}

#[test]
fn the_rtp_timestamp_wraps_without_a_discontinuity_in_spacing() {
    let mc = MediaClock::new(48_000);
    let secs = (u32::MAX as u64) / 48_000;
    let before = mc.rtp_timestamp(ts(secs, 0));
    let after = mc.rtp_timestamp(ts(secs + 1, 0));
    assert_eq!(after.wrapping_sub(before), 48_000, "spacing must survive the wrap");
}

// The slave.

const NOW: u64 = 1_000_000_000;

fn master_port() -> PortIdentity {
    PortIdentity { clock: ClockIdentity([1, 0, 0, 0xFF, 0xFE, 0, 0, 1]), port: 1 }
}

fn our_port() -> PortIdentity {
    PortIdentity { clock: ClockIdentity([9, 9, 9, 0xFF, 0xFE, 9, 9, 9]), port: 1 }
}

fn header(kind: MessageType, seq: u16, two_step: bool, source: PortIdentity) -> Header {
    Header {
        message_type: kind,
        domain: 0,
        flags: Flags { two_step, ..Default::default() },
        correction_subnanos: 0,
        source,
        sequence_id: seq,
        log_message_interval: 0,
    }
}

fn announce_msg(source: PortIdentity, priority1: u8) -> Message {
    Message {
        header: header(MessageType::Announce, 1, false, source),
        body: Body::Announce(Box::new(Announce {
            current_utc_offset: 37,
            grandmaster_priority1: priority1,
            grandmaster_quality: ClockQuality {
                class: 6,
                accuracy: 0x21,
                offset_scaled_log_variance: 0x436A,
            },
            grandmaster_priority2: 128,
            grandmaster_identity: source.clock,
            steps_removed: 0,
            time_source: 0x20,
        })),
    }
}

fn sync(seq: u16, two_step: bool, origin: Timestamp, source: PortIdentity) -> Message {
    Message { header: header(MessageType::Sync, seq, two_step, source), body: Body::Sync { origin } }
}

fn follow_up(seq: u16, precise_origin: Timestamp) -> Message {
    Message {
        header: header(MessageType::FollowUp, seq, false, master_port()),
        body: Body::FollowUp { precise_origin },
    }
}

fn delay_resp(seq: u16, receive: Timestamp, requesting: PortIdentity) -> Message {
    Message {
        header: header(MessageType::DelayResp, seq, false, master_port()),
        body: Body::DelayResp { receive, requesting },
    }
}

fn full_exchange(
    state: &mut SlaveState<D>,
    seq: u16,
    t1: Timestamp,
    t2: Timestamp,
    t3: Timestamp,
    t4: Timestamp,
) -> Option<Measurement> {
    state.on_message(&sync(seq, true, Timestamp::default(), master_port()), t2, NOW);
    state.on_message(&follow_up(seq, t1), ts(0, 0), NOW);
    state.on_delay_req_sent(seq, t3);
    let ours = state.identity();
    state.on_message(&delay_resp(seq, t4, ours), ts(0, 0), NOW);
    state.last_measurement()
}

fn locked_on_master() -> SlaveState<D> {
    let mut s = SlaveState::new(our_port(), 0);
    s.on_message(&announce_msg(master_port(), 128), ts(0, 0), NOW);
    s
}

#[test]
fn a_full_two_step_exchange_produces_the_right_offset() {
    let mut s = locked_on_master();
    let m = full_exchange(
        &mut s,
        1,
        ts(100, 0),
        ts(100, 1_005_000),
        ts(100, 501_005_000),
        ts(100, 500_010_000),
    )
    .expect("measurement");
    assert_eq!(m.delay_nanos, 5_000);
    assert_eq!(m.offset_nanos, 1_000_000);
    assert_eq!(s.stats().syncs, 1);
    assert_eq!(s.stats().follow_ups, 1);
    assert_eq!(s.stats().delay_resps, 1);
}

#[test]
fn an_exchange_with_a_nonsense_timestamp_measures_nothing() {
    let far = ts(0xFFFF_FFFF_FFFF, 0);
    let sane = [ts(100, 0), ts(100, 1_005_000), ts(100, 501_005_000), ts(100, 500_010_000)];
    for broken in 0..4 {
        let mut t = sane;
        t[broken] = far;
        let mut s = locked_on_master();
        assert_eq!(full_exchange(&mut s, 1, t[0], t[1], t[2], t[3]), None);
        assert_eq!(s.servo().local_to_ptp_offset(), 0);
        assert_eq!(s.servo().steps(), 0);
        assert_eq!(s.servo().state(), LockState::Unlocked);
        assert_eq!(s.stats().delay_resps, 1);
        let m = full_exchange(&mut s, 2, sane[0], sane[1], sane[2], sane[3]).expect("the next one counts");
        assert_eq!(m.offset_nanos, 1_000_000);
    }
}

#[test]
fn a_one_step_sync_needs_no_follow_up() {
    let mut s = locked_on_master();
    s.on_message(&sync(1, false, ts(100, 0), master_port()), ts(100, 1_005_000), NOW);
    s.on_delay_req_sent(1, ts(100, 501_005_000));
    s.on_message(&delay_resp(1, ts(100, 500_010_000), our_port()), ts(0, 0), NOW);
    assert_eq!(s.last_measurement().unwrap().offset_nanos, 1_000_000);
}

#[test]
fn a_follow_up_for_a_different_sync_is_not_paired_with_this_one() {
    let mut s = locked_on_master();
    s.on_message(&sync(5, true, Timestamp::default(), master_port()), ts(100, 1_005_000), NOW);
    s.on_message(&follow_up(6, ts(100, 0)), ts(0, 0), NOW);
    assert_eq!(s.stats().unmatched, 1, "mismatched sequence should not pair");

    s.on_delay_req_sent(5, ts(100, 501_005_000));
    s.on_message(&delay_resp(5, ts(100, 500_010_000), our_port()), ts(0, 0), NOW);
    assert!(s.last_measurement().is_none());
}

#[test]
fn another_slaves_delay_resp_is_ignored() {
    let mut s = locked_on_master();
    s.on_message(&sync(1, false, ts(100, 0), master_port()), ts(100, 1_005_000), NOW);
    s.on_delay_req_sent(1, ts(100, 501_005_000));

    let someone_else = PortIdentity { clock: ClockIdentity([7; 8]), port: 1 };
    s.on_message(&delay_resp(1, ts(100, 400_000_000), someone_else), ts(0, 0), NOW);
    assert!(s.last_measurement().is_none());
    assert_eq!(s.stats().delay_resps, 0);
}

#[test]
fn traffic_from_another_domain_is_counted_and_discarded() {
    let mut s = locked_on_master();
    let mut msg = announce_msg(master_port(), 1);
    msg.header.domain = 127;
    s.on_message(&msg, ts(0, 0), NOW);
    assert_eq!(s.stats().wrong_domain, 1);
    assert_eq!(s.master().unwrap().priority1, 128);
}

#[test]
fn sync_from_a_clock_that_is_not_our_master_is_ignored() {
    let mut s = locked_on_master();
    let other = PortIdentity { clock: ClockIdentity([2; 8]), port: 1 };
    s.on_message(&sync(1, false, ts(100, 0), other), ts(100, 1_005_000), NOW);
    assert_eq!(s.stats().syncs, 0);
}

#[test]
fn a_better_grandmaster_takes_over_and_discards_work_in_flight() {
    let mut s = locked_on_master();
    s.on_message(&sync(1, true, Timestamp::default(), master_port()), ts(100, 1_005_000), NOW);

    let better = PortIdentity { clock: ClockIdentity([0, 0, 0, 0xFF, 0xFE, 0, 0, 1]), port: 1 };
    let ev = s.on_message(&announce_msg(better, 50), ts(0, 0), NOW);
    assert_eq!(ev, Some(Event::MasterChanged));
    assert_eq!(s.master().unwrap().sender, better);

    s.on_message(&follow_up(1, ts(100, 0)), ts(0, 0), NOW);
    assert!(s.last_measurement().is_none());
}

#[test]
fn repeated_exchanges_drive_the_servo_to_lock() {
    let mut s = locked_on_master();
    for seq in 0..80u16 {
        let err = 30_000i64 + s.servo().local_to_ptp_offset();
        let base = 200u64 + seq as u64;
        let t1 = 1_000_000i64;
        let t2 = 1_005_000 + err;
        let t3 = 500_000_000 + err;
        let t4 = 500_005_000i64;
        assert!(t2 > 0 && t3 > 0, "test timestamps went negative: {t2}, {t3}");
        full_exchange(
            &mut s,
            seq,
            ts(base, t1 as u32),
            ts(base, t2 as u32),
            ts(base, t3 as u32),
            ts(base, t4 as u32),
        );
    }
    assert_eq!(s.servo().state(), LockState::Locked);
    assert!(
        s.servo().last_offset_nanos().abs() < 2_000,
        "residual offset {} ns",
        s.servo().last_offset_nanos()
    );
}

#[test]
fn the_wire_format_round_trips_through_the_state_machine() {
    let mut s = locked_on_master();
    let mut buf = [0u8; 44];
    header(MessageType::Sync, 3, false, master_port()).write(44, 0x00, &mut buf);
    ts(500, 250_000).write(&mut buf[HEADER_LEN..]);
    let msg = Message::parse(&buf).unwrap();

    s.on_message(&msg, ts(500, 255_000), NOW);
    assert_eq!(s.stats().syncs, 1);

    let mut resp = [0u8; 54];
    header(MessageType::DelayResp, 3, false, master_port()).write(54, 0x03, &mut resp);
    ts(500, 750_000).write(&mut resp[HEADER_LEN..]);
    our_port().write(&mut resp[HEADER_LEN + TIMESTAMP_LEN..]);

    s.on_delay_req_sent(3, ts(500, 745_000));
    s.on_message(&Message::parse(&resp).unwrap(), ts(0, 0), NOW);

    let m = s.last_measurement().expect("measurement from parsed bytes");
    assert_eq!(m.delay_nanos, 5_000);
    assert_eq!(m.offset_nanos, 0);
}

#[test]
fn a_silent_master_is_forgotten() {
    let mut s = locked_on_master();
    assert!(!s.ready_for_delay_req());
    assert_eq!(s.masters_seen(), 1);
    assert_eq!(s.tick(NOW + 10_000_000_000), Some(Event::MasterChanged));
    assert!(s.master().is_none());
    assert_eq!(s.domain(), 0);
}

// The port, against a grandmaster, in simulated time.

fn identity() -> PortIdentity {
    PortIdentity { clock: ClockIdentity::from_mac([0x02, 0x00, 0x00, 0x00, 0x00, 0x01]), port: 1 }
}

#[test]
fn a_port_with_no_traffic_has_no_master() {
    let mut port = PtpPort::<D>::new(identity(), 0, 0);
    assert_eq!(port.lock_state(), LockState::Unlocked);
    assert!(port.status().grandmaster.is_none());
    assert_eq!(port.tick(NOW), None);
    assert_eq!(port.status().masters_seen, 0);
    assert_eq!(port.next_delay_req(NOW), None);
    assert_eq!(AES67_DEFAULT_DOMAIN, 0);
}

#[test]
fn ptp_now_is_local_time_until_the_servo_moves_it() {
    let port = PtpPort::<D>::new(identity(), 0, 0);
    let a = port.ptp_now(1_700_000_000_000_000_000);
    let b = port.ptp_now(1_700_000_000_020_000_000);
    assert_eq!(a, ts(1_700_000_000, 0));
    assert_eq!(b.diff_nanos(a), 20_000_000);
}

#[test]
fn the_port_locks_to_a_grandmaster() {
    const OFFSET: i64 = 5_000_000;
    const WIRE: u64 = 2_000;
    let epoch: u128 = 1_700_000_000_000_000_000;
    let mut gm = Grandmaster::new(3, OFFSET, 0);
    let mut port = PtpPort::<D>::new(identity(), 3, 0);
    port.set_delay_interval(100_000_000);

    // Both ends read the same wall clock; the port sees everything a little later.
    let local = |port: &PtpPort<D>, now: u64| port.ptp_now(epoch + now as u128);
    let mut now: u64 = 0;
    for _ in 0..10_000 {
        now += 1_000_000;
        if let Some(pkt) = gm.announce_due(now) {
            let rx = local(&port, now + WIRE);
            port.receive(&pkt, rx, now);
        }
        if let Some(pkt) = gm.sync_due(now) {
            let t1 = gm.now(epoch + now as u128);
            let rx = local(&port, now + WIRE);
            port.receive(&pkt, rx, now);
            port.receive(&gm.follow_up(t1), rx, now);
        }
        if let Some(req) = port.next_delay_req(now) {
            let t3 = local(&port, now);
            port.delay_req_sent(t3, now);
            let t4 = gm.now(epoch + (now + WIRE) as u128);
            if let Some(resp) = gm.answer(&req, t4) {
                let rx = local(&port, now + 2 * WIRE);
                port.receive(&resp, rx, now);
            }
        }
        port.tick(now);
    }
    assert_eq!(port.lock_state(), LockState::Locked);
    let status = port.status();
    assert_eq!(status.grandmaster.as_deref(), Some("02-AA-BB-FF-FE-CC-DD-EE"));
    assert_eq!(status.masters_seen, 1);
    assert_eq!(status.domain, 3);
    assert_eq!(status.steps, 1);
    assert_eq!(status.delay_nanos, WIRE as i64);
    assert!(status.offset_nanos.abs() < 1_000, "residual {} ns", status.offset_nanos);
    assert!((port.servo().local_to_ptp_offset() - OFFSET).abs() < 1_000);
    assert_eq!(gm.offset_nanos(), OFFSET);
    assert_eq!(gm.identity().port, 1);
}

#[test]
fn a_port_on_another_domain_hears_nothing() {
    let mut gm = Grandmaster::new(1, 0, 0);
    let mut port = PtpPort::<D>::new(identity(), 0, 0);
    let pkt = gm.announce_due(NOW).expect("the first announce is due at once");
    assert_eq!(port.receive(&pkt, ts(1, 0), NOW), None);
    assert_eq!(port.status().stats.wrong_domain, 1);
    assert!(port.status().grandmaster.is_none());
    assert_eq!(port.receive(&[0u8; 8], ts(1, 0), NOW), None);
}

// The shared clock.

fn spin(d: Duration) {
    let start = Instant::now();
    while start.elapsed() < d {
        std::hint::spin_loop();
    }
}

#[test]
fn an_undisciplined_clock_reads_as_local_time() {
    let c = SharedClock::new(1_700_000_000_000_000_000);
    assert_eq!(c.offset_nanos(), 0);
    let a = c.now();
    spin(Duration::from_millis(20));
    let moved = c.now().diff_nanos(a);
    assert!((15_000_000..100_000_000).contains(&moved), "moved {moved} ns");
}

#[test]
fn publishing_an_offset_shifts_the_time_it_reports() {
    let mut c = SharedClock::new(1_700_000_000_000_000_000);
    let before = c.now();
    c.publish(50_000_000, 1, 1);
    let after = c.now();
    let shift = after.diff_nanos(before);
    assert!((49_000_000..52_000_000).contains(&shift), "expected a ~50 ms shift, got {shift} ns");
    assert_eq!(c.steps(), 1);
    assert_eq!(c.measurements(), 1);
}

#[test]
fn the_shared_clock_counts_from_its_epoch() {
    let mut c = SharedClock::new(1_700_000_000_000_000_000);
    assert_eq!(c.local_at(1_500_000_000), ts(1_700_000_001, 500_000_000));
    assert_eq!(c.nanos_at(7), 1_700_000_000_000_000_007);
    c.publish(-1_000_000_000, 0, 5);
    assert_eq!(c.nanos_at(0), 1_699_999_999_000_000_000);
    assert_eq!(c.local_at(0), ts(1_700_000_000, 0), "local time is not disciplined");
    assert!(c.local_now().diff_nanos(ts(1_700_000_000, 0)) >= 0);
    assert!(c.now_nanos() < 1_700_000_000_000_000_000);
    assert_eq!(timestamp_from_nanos(2_000_000_003), ts(2, 3));

    // A copy runs on the same timeline, and is disciplined on its own.
    let mut copy = c;
    copy.publish(0, 0, 0);
    spin(Duration::from_millis(2));
    let elapsed = copy.now_nanos() - 1_700_000_000_000_000_000;
    assert!((2_000_000..1_000_000_000).contains(&elapsed), "read {elapsed} ns");
    assert_eq!(c.offset_nanos(), -1_000_000_000);
}
