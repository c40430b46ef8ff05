//! PTP messages and the best master.

use std::cmp::Ordering;
use std::time::Duration;

use squawk::ptp::bmca::{compare, log_interval_to_duration, BestMaster, MasterDataset};
use squawk::ptp::message::{
    write_delay_req, Body, ClockIdentity, ClockQuality, Flags, Header, Message, MessageType, PortIdentity, PtpError,
    Timestamp, HEADER_LEN, TIMESTAMP_LEN,
};

fn dataset(gm: u8, p1: u8, class: u8, p2: u8) -> MasterDataset {
    MasterDataset {
        grandmaster: ClockIdentity([gm, 0, 0, 0xFF, 0xFE, 0, 0, 0]),
        priority1: p1,
        quality: ClockQuality { class, accuracy: 0x21, offset_scaled_log_variance: 0x436A },
        priority2: p2,
        steps_removed: 0,
        sender: PortIdentity { clock: ClockIdentity([gm, 0, 0, 0xFF, 0xFE, 0, 0, 0]), port: 1 },
    }
}

const SECOND: u64 = 1_000_000_000;

#[test]
fn priority1_outranks_every_measure_of_quality() {
    let forced = dataset(1, 50, 248, 128);
    let gps = dataset(2, 128, 6, 128);
    assert_eq!(compare(&forced, &gps), Ordering::Less);
}

#[test]
fn clock_class_decides_when_priorities_match() {
    let gps = dataset(1, 128, 6, 128);
    let holdover = dataset(2, 128, 187, 128);
    assert_eq!(compare(&gps, &holdover), Ordering::Less);
}

#[test]
fn accuracy_then_variance_then_priority2_break_further_ties() {
    let mut a = dataset(1, 128, 6, 128);
    let mut b = dataset(2, 128, 6, 128);

    a.quality.accuracy = 0x20;
    b.quality.accuracy = 0x21;
    assert_eq!(compare(&a, &b), Ordering::Less);

    a.quality.accuracy = 0x21;
    a.quality.offset_scaled_log_variance = 0x4000;
    assert_eq!(compare(&a, &b), Ordering::Less);

    a.quality.offset_scaled_log_variance = b.quality.offset_scaled_log_variance;
    a.priority2 = 100;
    assert_eq!(compare(&a, &b), Ordering::Less);
}

#[test]
fn identical_clocks_are_separated_by_identity_so_everyone_agrees() {
    let a = dataset(1, 128, 6, 128);
    let b = dataset(2, 128, 6, 128);
    assert_eq!(compare(&a, &b), Ordering::Less);
    assert_eq!(compare(&b, &a), Ordering::Greater);
    assert_eq!(compare(&a, &a), Ordering::Equal);
}

#[test]
fn the_same_grandmaster_via_a_shorter_path_wins() {
    let mut near = dataset(1, 128, 6, 128);
    let mut far = dataset(1, 128, 6, 128);
    near.steps_removed = 1;
    far.steps_removed = 3;
    far.sender.port = 2;
    assert_eq!(compare(&near, &far), Ordering::Less);
}

#[test]
fn picks_the_best_of_several_and_re_picks_when_it_disappears() {
    let mut bm = BestMaster::new();
    let now = 5 * SECOND;

    let gps = dataset(1, 128, 6, 128);
    let ordinary = dataset(2, 128, 187, 128);
    bm.observe(gps, 1, now);
    bm.observe(ordinary, 1, now);

    assert_eq!(bm.known_masters(), 2);
    assert_eq!(bm.best().unwrap().grandmaster, gps.grandmaster);

    let later = now + 7 * SECOND;
    bm.observe(ordinary, 1, later);
    assert_eq!(bm.expire(later), 1);
    assert_eq!(bm.best().unwrap().grandmaster, ordinary.grandmaster);
}

#[test]
fn an_empty_domain_has_no_master() {
    let bm = BestMaster::new();
    assert!(bm.best().is_none());
}

#[test]
fn log_intervals_are_signed_powers_of_two_seconds() {
    let interval = |log: i8| Duration::from_nanos(log_interval_to_duration(log));
    assert_eq!(interval(0), Duration::from_secs(1));
    assert_eq!(interval(1), Duration::from_secs(2));
    assert_eq!(interval(-3), Duration::from_millis(125));
    assert_eq!(interval(-4), Duration::from_micros(62_500));
}

#[test]
fn every_log_interval_is_a_power_of_two_to_the_nearest_nanosecond() {
    for log in i8::MIN..=i8::MAX {
        let want = if log >= 0 {
            Duration::from_secs(1u64 << log.min(16))
        } else {
            Duration::from_secs_f64(2f64.powi(log as i32))
        };
        assert_eq!(Duration::from_nanos(log_interval_to_duration(log)), want, "log interval {log}");
    }
}

#[test]
fn a_master_heard_again_is_not_counted_twice() {
    let mut bm = BestMaster::new();
    let gps = dataset(1, 128, 6, 128);
    bm.observe(gps, 0, SECOND);
    bm.observe(gps, 0, 2 * SECOND);
    assert_eq!(bm.known_masters(), 1);
    assert_eq!(bm.expire(4 * SECOND), 0);
    assert_eq!(bm.expire(6 * SECOND), 1);
    assert!(bm.best().is_none());
}

fn sample_source() -> PortIdentity {
    PortIdentity { clock: ClockIdentity::from_mac([0x00, 0x1D, 0xC1, 0x12, 0x34, 0x56]), port: 1 }
}

fn header(message_type: MessageType) -> Header {
    Header {
        message_type,
        domain: 0,
        flags: Flags::default(),
        correction_subnanos: 0,
        source: sample_source(),
        sequence_id: 1,
        log_message_interval: 0,
    }
}

#[test]
fn clock_identity_follows_the_mac_convention() {
    let id = ClockIdentity::from_mac([0x00, 0x1D, 0xC1, 0x12, 0x34, 0x56]);
    assert_eq!(id.0, [0x00, 0x1D, 0xC1, 0xFF, 0xFE, 0x12, 0x34, 0x56]);
    assert_eq!(id.text(), "00-1D-C1-FF-FE-12-34-56");
}

#[test]
fn timestamps_round_trip_across_the_48_bit_seconds_field() {
    let t = Timestamp::new(0x0000_1234_5678_9ABC & 0xFFFF_FFFF_FFFF, 999_999_999);
    let mut buf = [0u8; TIMESTAMP_LEN];
    t.write(&mut buf);
    assert_eq!(Timestamp::parse(&buf).unwrap(), t);
}

#[test]
fn a_nanoseconds_field_of_a_second_or_more_is_rejected() {
    let mut buf = [0u8; TIMESTAMP_LEN];
    buf[6..10].copy_from_slice(&1_000_000_000u32.to_be_bytes());
    assert_eq!(Timestamp::parse(&buf), Err(PtpError::BadTimestamp(1_000_000_000)));
}

#[test]
fn timestamp_differences_do_not_overflow_at_the_top_of_the_range() {
    let far = Timestamp::new(0xFFFF_FFFF_FFFF, 0);
    let near = Timestamp::new(0, 0);
    assert_eq!(far.diff_nanos(near), i64::MAX);
    assert_eq!(near.diff_nanos(far), i64::MIN);

    let a = Timestamp::new(1_700_000_010, 500_000_000);
    let b = Timestamp::new(1_700_000_009, 250_000_000);
    assert_eq!(a.diff_nanos(b), 1_250_000_000);
    assert_eq!(b.diff_nanos(a), -1_250_000_000);
}

#[test]
fn a_header_round_trips() {
    let h = Header {
        message_type: MessageType::Sync,
        domain: 127,
        flags: Flags { two_step: true, ptp_timescale: true, ..Default::default() },
        correction_subnanos: 12_345 << 16,
        source: sample_source(),
        sequence_id: 0xBEEF,
        log_message_interval: -3,
    };
    let mut buf = [0u8; 44];
    h.write(44, 0x00, &mut buf);

    assert_eq!(buf[1] & 0x0f, 2, "versionPTP must be 2");
    assert_eq!(u16::from_be_bytes([buf[2], buf[3]]), 44);

    let parsed = Header::parse(&buf).unwrap();
    assert_eq!(parsed, h);
    assert_eq!(parsed.correction_nanos(), 12_345);
    assert!(parsed.flags.two_step);
}

#[test]
fn the_correction_field_is_scaled_nanoseconds() {
    let mut buf = [0u8; 44];
    let h = Header { correction_subnanos: (2_500i64 << 16) | 0x8000, ..header(MessageType::Sync) };
    h.write(44, 0, &mut buf);
    assert_eq!(Header::parse(&buf).unwrap().correction_nanos(), 2_500);
}

#[test]
fn a_negative_correction_keeps_its_sign() {
    let mut buf = [0u8; 44];
    let h = Header { correction_subnanos: -(7i64 << 16), ..header(MessageType::Sync) };
    h.write(44, 0, &mut buf);
    let parsed = Header::parse(&buf).unwrap();
    assert_eq!(parsed, h);
    assert_eq!(parsed.correction_nanos(), -7);
}

#[test]
fn a_version_1_packet_is_rejected() {
    let mut buf = [0u8; HEADER_LEN];
    buf[1] = 0x01;
    assert_eq!(Header::parse(&buf), Err(PtpError::BadVersion(1)));
}

#[test]
fn event_messages_are_the_ones_that_need_timestamping() {
    assert!(MessageType::Sync.is_event());
    assert!(MessageType::DelayReq.is_event());
    assert!(!MessageType::FollowUp.is_event());
    assert!(!MessageType::DelayResp.is_event());
    assert!(!MessageType::Announce.is_event());
}

#[test]
fn parses_a_two_step_sync() {
    let mut buf = [0u8; 44];
    Header {
        flags: Flags { two_step: true, ..Default::default() },
        sequence_id: 7,
        log_message_interval: -3,
        ..header(MessageType::Sync)
    }
    .write(44, 0x00, &mut buf);
    Timestamp::new(1_700_000_000, 123).write(&mut buf[HEADER_LEN..]);

    let msg = Message::parse(&buf).unwrap();
    assert!(msg.header.flags.two_step);
    assert_eq!(msg.body, Body::Sync { origin: Timestamp::new(1_700_000_000, 123) });
}

#[test]
fn parses_a_delay_resp_and_its_requesting_port() {
    let mut buf = [0u8; 54];
    Header { sequence_id: 42, ..header(MessageType::DelayResp) }.write(54, 0x03, &mut buf);
    Timestamp::new(1_700_000_001, 500).write(&mut buf[HEADER_LEN..]);
    let requester =
        PortIdentity { clock: ClockIdentity::from_mac([0xAA, 0xBB, 0xCC, 0xDD, 0xEE, 0xFF]), port: 3 };
    requester.write(&mut buf[HEADER_LEN + TIMESTAMP_LEN..]);

    let msg = Message::parse(&buf).unwrap();
    assert_eq!(
        msg.body,
        Body::DelayResp { receive: Timestamp::new(1_700_000_001, 500), requesting: requester }
    );
}

#[test]
fn parses_an_announce() {
    let mut buf = [0u8; 64];
    Header {
        flags: Flags { ptp_timescale: true, time_traceable: true, ..Default::default() },
        sequence_id: 9,
        log_message_interval: 1,
        ..header(MessageType::Announce)
    }
    .write(64, 0x05, &mut buf);

    let body = &mut buf[HEADER_LEN..];
    body[10..12].copy_from_slice(&37i16.to_be_bytes());
    body[13] = 128;
    body[14] = 6;
    body[15] = 0x21;
    body[16..18].copy_from_slice(&0x436Au16.to_be_bytes());
    body[18] = 128;
    let gm = ClockIdentity::from_mac([0x00, 0x1D, 0xC1, 0x12, 0x34, 0x56]);
    body[19..27].copy_from_slice(&gm.0);
    body[27..29].copy_from_slice(&0u16.to_be_bytes());
    body[29] = 0x20;

    let msg = Message::parse(&buf).unwrap();
    let Body::Announce(a) = msg.body else { panic!("not an announce") };
    assert_eq!(a.current_utc_offset, 37);
    assert_eq!(a.grandmaster_priority1, 128);
    assert_eq!(a.grandmaster_quality.class, 6);
    assert_eq!(a.grandmaster_identity, gm);
    assert_eq!(a.steps_removed, 0);
    assert_eq!(a.time_source, 0x20);
}

#[test]
fn a_truncated_body_is_rejected_rather_than_read_past() {
    let mut buf = [0u8; HEADER_LEN + 4];
    header(MessageType::Announce).write(HEADER_LEN as u16 + 4, 0x05, &mut buf);
    assert_eq!(Message::parse(&buf), Err(PtpError::TruncatedBody(0xB, 4)));
}

#[test]
fn peer_delay_messages_parse_as_other_rather_than_failing() {
    let mut buf = [0u8; 54];
    header(MessageType::PdelayReq).write(54, 0x05, &mut buf);
    assert_eq!(Message::parse(&buf).unwrap().body, Body::Other);
}

#[test]
fn a_built_delay_req_parses_back() {
    let mut buf = [0u8; 44];
    write_delay_req(sample_source(), 0, 1234, &mut buf);
    let msg = Message::parse(&buf).unwrap();
    assert_eq!(msg.header.message_type, MessageType::DelayReq);
    assert_eq!(msg.header.sequence_id, 1234);
    assert_eq!(msg.header.source, sample_source());
    assert_eq!(msg.body, Body::DelayReq { origin: Timestamp::default() });
}

#[test]
fn ptp_errors_say_what_is_wrong() {
    let short = Header::parse(&[0u8; 10]).unwrap_err();
    assert_eq!(short, PtpError::TooShort(10));
    assert_eq!(short.text(), "packet is 10 bytes, shorter than the 34-byte PTP header");
    assert_eq!(PtpError::BadVersion(1).text(), "PTP version is 1, expected 2");
    assert_eq!(
        PtpError::TruncatedBody(0xB, 4).text(),
        "message type 0xb carries a 4-byte body, which is too short"
    );
    assert_eq!(
        PtpError::BadTimestamp(1_000_000_000).text(),
        "nanoseconds field is 1000000000, which is not below one second"
    );
}

#[test]
fn every_type_code_is_its_own() {
    for code in 0u8..16 {
        assert_eq!(MessageType::from_bits(code).to_bits(), code);
    }
    assert_eq!(MessageType::from_bits(0x4), MessageType::Unknown(4));
}
