//! Packets, addressing, the receive buffer and one stream end to end.

use std::collections::HashSet;

use squawk::config::model::MAX_KEYS;
use squawk::rtp::addressing::{
    key_group, key_ssrc, mic_group, mic_ssrc, offset, stream_group, Ipv4Addr, DEFAULT_GROUP_BASE, KEY_BASE,
};
use squawk::rtp::jitter::{ts_diff, JitterBuffer, Pull, Push};
use squawk::rtp::packet::{
    decode_l24, encode_l24, frames_in_payload, from_i24, payload_range, to_i24, write_packet, RtpError, RtpHeader,
    L24_BYTES, RTP_HEADER_LEN,
};
use squawk::rtp::transport::{StreamReceiver, StreamSender};
use squawk::sample::Sample;

/// Single precision.
#[derive(Clone, Copy, Debug, PartialEq)]
struct F(f32);

impl Sample for F {
    fn from_bits(bits: u32) -> F {
        F(f32::from_bits(bits))
    }
    fn whole(n: i64) -> F {
        F(n as f32)
    }
    fn plus(self, other: F) -> F {
        F(self.0 + other.0)
    }
    fn minus(self, other: F) -> F {
        F(self.0 - other.0)
    }
    fn times(self, other: F) -> F {
        F(self.0 * other.0)
    }
    fn over(self, other: F) -> F {
        F(self.0 / other.0)
    }
    fn power(self, exponent: F) -> F {
        F(self.0.powf(exponent.0))
    }
    fn exponential(self) -> F {
        F(self.0.exp())
    }
    fn logarithm(self) -> F {
        F(self.0.log10())
    }
    fn magnitude(self) -> F {
        F(self.0.abs())
    }
    fn greater(self, other: F) -> F {
        F(self.0.max(other.0))
    }
    fn lesser(self, other: F) -> F {
        F(self.0.min(other.0))
    }
    fn exceeds(self, other: F) -> bool {
        self.0 > other.0
    }
    fn at_most(self, other: F) -> bool {
        self.0 <= other.0
    }
    fn equals(self, other: F) -> bool {
        self.0 == other.0
    }
    fn negated(self) -> F {
        F(-self.0)
    }
    fn rounded(self) -> F {
        F(self.0.round())
    }
    fn fraction(self) -> F {
        F(self.0.fract())
    }
    fn truncated(self) -> i128 {
        self.0 as i128
    }
}

const SCALE_24: f32 = 8_388_608.0;

fn wrap(xs: &[f32]) -> Vec<F> {
    xs.iter().map(|x| F(*x)).collect()
}

// Packets.

#[test]
fn header_round_trips() {
    let h = RtpHeader {
        marker: true,
        payload_type: 97,
        sequence: 0xBEEF,
        timestamp: 0x1234_5678,
        ssrc: 0xDEAD_C0DE,
    };
    let mut buf = [0u8; RTP_HEADER_LEN];
    h.write(&mut buf);

    assert_eq!(buf[0], 0x80, "V=2, no padding, no extension, no CSRC");
    assert_eq!(buf[1], 0x80 | 97, "marker bit plus payload type");

    let (parsed, offset) = RtpHeader::parse(&buf).unwrap();
    assert_eq!(parsed, h);
    assert_eq!(offset, RTP_HEADER_LEN);
}

#[test]
fn rejects_a_short_or_wrong_version_packet() {
    assert_eq!(RtpHeader::parse(&[0u8; 8]), Err(RtpError::TooShort(8)));
    let mut buf = [0u8; RTP_HEADER_LEN];
    buf[0] = 0b0100_0000;
    assert_eq!(RtpHeader::parse(&buf), Err(RtpError::BadVersion(1)));
}

#[test]
fn skips_csrcs_and_header_extensions() {
    let mut buf = vec![0u8; RTP_HEADER_LEN + 8 + 4 + 8 + 6];
    buf[0] = 0b1001_0010;
    let ext_at = RTP_HEADER_LEN + 8;
    buf[ext_at + 2..ext_at + 4].copy_from_slice(&2u16.to_be_bytes());
    let (_, offset) = RtpHeader::parse(&buf).unwrap();
    assert_eq!(offset, RTP_HEADER_LEN + 8 + 4 + 8);
}

#[test]
fn a_header_that_claims_more_than_there_is_is_rejected() {
    let mut buf = vec![0u8; RTP_HEADER_LEN + 4];
    buf[0] = 0b1000_0010;
    assert_eq!(RtpHeader::parse(&buf), Err(RtpError::TruncatedHeader { claimed: 20, len: 16 }));
    buf[0] = 0b1001_0000;
    buf[RTP_HEADER_LEN + 2..RTP_HEADER_LEN + 4].copy_from_slice(&9u16.to_be_bytes());
    assert_eq!(RtpHeader::parse(&buf), Err(RtpError::TruncatedHeader { claimed: 52, len: 16 }));
}

#[test]
fn strips_rfc3550_padding_from_the_end() {
    let mut buf = vec![0u8; RTP_HEADER_LEN + 6 + 4];
    buf[0] = 0b1010_0000;
    *buf.last_mut().unwrap() = 4;
    let payload = payload_range(&buf, RTP_HEADER_LEN).unwrap();
    assert_eq!(payload.len(), 6, "padding should not be decoded as audio");
}

#[test]
fn padding_of_nothing_or_of_too_much_is_rejected() {
    let mut buf = vec![0u8; RTP_HEADER_LEN + 6];
    buf[0] = 0b1010_0000;
    assert!(payload_range(&buf, RTP_HEADER_LEN).is_err());
    *buf.last_mut().unwrap() = 7;
    assert_eq!(
        payload_range(&buf, RTP_HEADER_LEN),
        Err(RtpError::TruncatedHeader { claimed: 19, len: 18 })
    );
}

#[test]
fn l24_round_trips_within_a_quantisation_step() {
    let samples: Vec<F> = (0..64).map(|i| F((i as f32 / 32.0) - 1.0)).collect();
    let mut bytes = vec![0u8; samples.len() * L24_BYTES];
    encode_l24(&samples, &mut bytes);

    let mut back = vec![F(0.0); samples.len()];
    decode_l24(&bytes, &mut back).unwrap();

    for (a, b) in samples.iter().zip(&back) {
        assert!((a.0 - b.0).abs() < 1.0 / SCALE_24, "{} != {}", a.0, b.0);
    }
}

#[test]
fn full_scale_saturates_instead_of_wrapping() {
    let samples = wrap(&[1.0, 1.5, -1.0, -2.0, 0.999_999_9]);
    let mut bytes = vec![0u8; samples.len() * L24_BYTES];
    encode_l24(&samples, &mut bytes);

    let mut back = vec![F(0.0); samples.len()];
    decode_l24(&bytes, &mut back).unwrap();

    assert!(back[0].0 > 0.99 && back[0].0 <= 1.0, "1.0 became {}", back[0].0);
    assert!(back[1].0 > 0.99 && back[1].0 <= 1.0, "1.5 became {}", back[1].0);
    assert!((back[2].0 + 1.0).abs() < 1e-6, "-1.0 became {}", back[2].0);
    assert!((back[3].0 + 1.0).abs() < 1e-6, "-2.0 became {}", back[3].0);
    assert!(back.iter().all(|s| s.0 >= -1.0 && s.0.abs() <= 1.0));
}

#[test]
fn silence_encodes_to_all_zero_bytes() {
    let mut bytes = vec![0xffu8; 3 * L24_BYTES];
    encode_l24(&wrap(&[0.0, 0.0, 0.0]), &mut bytes);
    assert_eq!(bytes, vec![0u8; 3 * L24_BYTES]);
}

#[test]
fn decode_rejects_a_partial_sample() {
    let mut out = [F(0.0); 1];
    assert_eq!(decode_l24(&[0, 1], &mut out), Err(RtpError::PartialSample(2)));
}

#[test]
fn a_written_packet_parses_back_to_the_same_audio() {
    let header = RtpHeader::new(96, 42, 48_000, 0x1111_2222);
    let samples: Vec<F> = (0..48).map(|i| F((i as f32 * 0.01).sin() * 0.5)).collect();

    let mut buf = vec![0u8; RTP_HEADER_LEN + 48 * L24_BYTES];
    let n = write_packet(&header, &samples, &mut buf);
    assert_eq!(n, RTP_HEADER_LEN + 144, "1 ms of mono L24 is a 144-byte payload");

    let (parsed, offset) = RtpHeader::parse(&buf[..n]).unwrap();
    assert_eq!(parsed, header);
    let payload = payload_range(&buf[..n], offset).unwrap();
    assert_eq!(frames_in_payload(payload.len(), 1).unwrap(), 48);

    let mut back = vec![F(0.0); 48];
    decode_l24(payload, &mut back).unwrap();
    for (a, b) in samples.iter().zip(&back) {
        assert!((a.0 - b.0).abs() < 1.0 / SCALE_24);
    }
}

#[test]
fn frame_count_rejects_a_ragged_multichannel_payload() {
    assert_eq!(
        frames_in_payload(48 * L24_BYTES, 5),
        Err(RtpError::RaggedFrame { samples: 48, channels: 5 })
    );
    assert_eq!(frames_in_payload(96 * L24_BYTES, 2).unwrap(), 48);
    assert_eq!(
        frames_in_payload(96 * L24_BYTES, 0),
        Err(RtpError::RaggedFrame { samples: 96, channels: 0 })
    );
    assert_eq!(frames_in_payload(7, 1), Err(RtpError::PartialSample(7)));
}

#[test]
fn samples_are_24_bit_numbers() {
    assert_eq!(to_i24(F(0.5)), 4_194_304);
    assert_eq!(to_i24(F(-0.5)), -4_194_304);
    assert_eq!(to_i24(F(1.0)), 8_388_607);
    assert_eq!(to_i24(F(-1.0)), -8_388_608);
    let half: F = from_i24(4_194_304);
    assert_eq!(half, F(0.5));
    let mut bytes = [0u8; 3];
    encode_l24(&[F(-0.5)], &mut bytes);
    assert_eq!(bytes, [0xC0, 0, 0]);
}

#[test]
fn rtp_errors_say_what_is_wrong() {
    assert_eq!(
        RtpError::TooShort(8).text(),
        "packet is 8 bytes, shorter than the 12-byte RTP header"
    );
    assert_eq!(RtpError::BadVersion(1).text(), "RTP version is 1, expected 2");
    assert_eq!(
        RtpError::TruncatedHeader { claimed: 20, len: 16 }.text(),
        "header claims 20 bytes of CSRC/extension but the packet is 16 bytes"
    );
    assert_eq!(
        RtpError::PartialSample(2).text(),
        "payload is 2 bytes, not a whole number of L24 samples"
    );
    assert_eq!(
        RtpError::RaggedFrame { samples: 48, channels: 5 }.text(),
        "payload holds 48 samples, not divisible by 5 channels"
    );
}

// Addressing.

#[test]
fn adding_a_key_does_not_move_any_other_endpoints_groups() {
    let before: Vec<Ipv4Addr> = (0..4).map(|s| key_group(3, s)).collect();
    let after: Vec<Ipv4Addr> = (0..4).map(|s| key_group(3, s)).collect();
    assert_eq!(before, after);
    assert_eq!(key_group(0, 5), offset(KEY_BASE, 5));
    assert_eq!(key_group(3, 2).octets(), [239, 69, 0, 32]);
    assert_eq!(mic_group(1).octets(), [239, 69, 128, 1]);
}

#[test]
fn key_and_mic_ranges_never_collide() {
    let mut seen = HashSet::new();
    for e in 0..256 {
        for s in 0..MAX_KEYS as u8 {
            assert!(seen.insert(key_group(e, s)), "duplicate key group at {e}/{s}");
        }
        assert!(seen.insert(mic_group(e)), "mic group collided at {e}");
    }
}

#[test]
fn every_allocated_group_is_multicast_with_distinct_low_23_bits() {
    let mut low23 = HashSet::new();
    for e in 0..512 {
        for s in 0..MAX_KEYS as u8 {
            let g = key_group(e, s);
            assert!(g.is_multicast(), "{g:?} is not a multicast address");
            assert!(low23.insert(g.bits & 0x007f_ffff), "{g:?} shares a MAC");
        }
        let m = mic_group(e);
        assert!(m.is_multicast());
        assert!(low23.insert(m.bits & 0x007f_ffff), "{m:?} shares a MAC");
    }
}

#[test]
fn ssrcs_are_unique_across_keys_and_mics() {
    let mut seen = HashSet::new();
    for e in 0..256 {
        for s in 0..MAX_KEYS as u8 {
            assert!(seen.insert(key_ssrc(e, s)), "duplicate key SSRC at {e}/{s}");
        }
        assert!(seen.insert(mic_ssrc(e)), "mic SSRC collided at {e}");
    }
}

#[test]
fn group_allocation_keeps_the_low_23_bits_distinct() {
    let base = Ipv4Addr { bits: DEFAULT_GROUP_BASE };
    let groups: Vec<Ipv4Addr> = (0..1000).map(|i| stream_group(base, i)).collect();
    let mut low23: Vec<u32> = groups.iter().map(|g| g.bits & 0x007f_ffff).collect();
    low23.sort_unstable();
    let before = low23.len();
    low23.dedup();
    assert_eq!(low23.len(), before, "two streams would share a multicast MAC");
    assert!(groups.iter().all(|g| g.is_multicast()));
}

// The receive buffer.

const BLOCK: usize = 48;

fn dc(value: f32) -> Vec<F> {
    vec![F(value); BLOCK]
}

fn push_run(jb: &mut JitterBuffer<F>, ts: u32, count: u32) {
    for i in 0..count {
        let t = ts.wrapping_add(i * BLOCK as u32);
        jb.push(t, &dc(i as f32 + 1.0));
    }
}

fn pull(jb: &mut JitterBuffer<F>) -> (Pull, f32) {
    let mut out = vec![F(0.0); BLOCK];
    let r = jb.pull(&mut out);
    (r, out[0].0)
}

#[test]
fn plays_out_in_order_after_filling_to_the_target_depth() {
    let mut jb = JitterBuffer::new(BLOCK, 2);
    push_run(&mut jb, 1000, 4);

    assert_eq!(pull(&mut jb).0, Pull::Priming);
    assert_eq!(pull(&mut jb).0, Pull::Priming);

    for expected in 1..=4 {
        let (res, v) = pull(&mut jb);
        assert_eq!(res, Pull::Filled, "packet {expected}");
        assert_eq!(v, expected as f32);
    }

    assert_eq!(jb.stats().lost, 0, "priming must not register as packet loss");
}

#[test]
fn reordered_packets_land_at_the_right_instant() {
    let mut jb = JitterBuffer::new(BLOCK, 3);
    let base = 10_000u32;
    jb.push(base, &dc(1.0));
    jb.push(base + 2 * BLOCK as u32, &dc(3.0));
    assert_eq!(jb.push(base + BLOCK as u32, &dc(2.0)), Push::Accepted);

    for _ in 0..3 {
        pull(&mut jb);
    }
    assert_eq!(pull(&mut jb), (Pull::Filled, 1.0));
    assert_eq!(pull(&mut jb), (Pull::Filled, 2.0), "the swap must be undone");
    assert_eq!(pull(&mut jb), (Pull::Filled, 3.0));
}

#[test]
fn a_duplicate_is_recognised_and_not_mixed_in_twice() {
    let mut jb = JitterBuffer::new(BLOCK, 2);
    jb.push(500, &dc(1.0));
    assert_eq!(jb.push(500, &dc(1.0)), Push::Duplicate);
    assert_eq!(jb.stats().duplicates, 1);
}

#[test]
fn a_packet_that_arrives_after_its_moment_is_reported_late() {
    let mut jb = JitterBuffer::new(BLOCK, 1);
    let base = 2_000u32;
    push_run(&mut jb, base, 3);
    for _ in 0..4 {
        pull(&mut jb);
    }
    assert_eq!(jb.push(base, &dc(9.0)), Push::Late(BLOCK as u32 * 3));
    assert_eq!(jb.stats().late, 1);
}

#[test]
fn a_lost_packet_is_concealed_by_a_decaying_repeat() {
    let mut jb = JitterBuffer::new(BLOCK, 1);
    let base = 3_000u32;
    jb.push(base, &dc(1.0));
    jb.push(base + 2 * BLOCK as u32, &dc(1.0));

    pull(&mut jb);
    assert_eq!(pull(&mut jb), (Pull::Filled, 1.0));

    let (res, v) = pull(&mut jb);
    assert_eq!(res, Pull::Concealed);
    assert_eq!(v, 0.5, "one lost packet should fade, not drop to silence");
    assert_eq!(pull(&mut jb), (Pull::Filled, 1.0), "recovers on the next packet");
    assert_eq!(jb.stats().lost, 1);
}

#[test]
fn a_long_dropout_decays_to_silence_rather_than_buzzing() {
    let mut jb = JitterBuffer::new(BLOCK, 1);
    jb.push(4_000, &dc(1.0));
    pull(&mut jb);
    pull(&mut jb);

    let mut last = 1.0;
    for _ in 0..8 {
        let (res, v) = pull(&mut jb);
        assert_eq!(res, Pull::Concealed);
        assert!(v < last || v == 0.0, "concealment must decay: {v} after {last}");
        last = v;
    }
    assert_eq!(last, 0.0, "a sustained dropout should end in silence");
}

#[test]
fn concealment_halves_six_times_and_then_is_silent() {
    let mut jb = JitterBuffer::new(BLOCK, 1);
    jb.push(4_000, &dc(1.0));
    pull(&mut jb);
    pull(&mut jb);
    for n in 1..=6 {
        assert_eq!(pull(&mut jb), (Pull::Concealed, 0.5f32.powi(n)));
    }
    assert_eq!(pull(&mut jb), (Pull::Concealed, 0.0));
}

#[test]
fn a_sender_restart_resyncs_instead_of_stalling() {
    let mut jb = JitterBuffer::new(BLOCK, 2);
    push_run(&mut jb, 1_000, 3);
    for _ in 0..3 {
        pull(&mut jb);
    }

    let restart = 900_000u32;
    assert_eq!(jb.push(restart, &dc(7.0)), Push::Resync);
    assert_eq!(jb.stats().resyncs, 1);

    for _ in 0..2 {
        pull(&mut jb);
    }
    assert_eq!(pull(&mut jb), (Pull::Filled, 7.0), "audio flows again after resync");
}

#[test]
fn a_sender_with_the_wrong_packet_time_is_reported_not_mangled() {
    let mut jb = JitterBuffer::new(BLOCK, 2);
    jb.push(0, &dc(1.0));
    assert_eq!(jb.push(BLOCK as u32 / 2, &dc(2.0)), Push::Misaligned);
    assert_eq!(jb.stats().misaligned, 1);
}

#[test]
fn the_timestamp_wrap_at_2_to_the_32_is_a_non_event() {
    let mut jb = JitterBuffer::new(BLOCK, 2);
    let base = u32::MAX - (BLOCK as u32 * 3) + 1;
    push_run(&mut jb, base, 6);

    for _ in 0..2 {
        pull(&mut jb);
    }
    for expected in 1..=6 {
        let (res, v) = pull(&mut jb);
        assert_eq!(res, Pull::Filled, "packet {expected} across the wrap");
        assert_eq!(v, expected as f32);
    }
    assert_eq!(jb.stats().resyncs, 0, "the wrap must not look like a restart");
    assert_eq!(jb.stats().lost, 0);
}

#[test]
fn depth_settles_at_the_target_when_the_clocks_agree() {
    let mut jb = JitterBuffer::new(BLOCK, 3);
    let mut ts = 50_000u32;
    for _ in 0..64 {
        jb.push(ts, &dc(1.0));
        ts = ts.wrapping_add(BLOCK as u32);
        pull(&mut jb);
    }
    let drift = jb.drift().expect("enough history").0;
    assert!(drift.abs() < 0.5, "locked clocks should not drift, got {drift}");
}

#[test]
fn a_fast_sender_shows_up_as_positive_drift() {
    let mut jb = JitterBuffer::new(BLOCK, 2);
    let mut ts = 70_000u32;
    for i in 0..64 {
        jb.push(ts, &dc(1.0));
        ts = ts.wrapping_add(BLOCK as u32);
        if i % 8 == 0 {
            jb.push(ts, &dc(1.0));
            ts = ts.wrapping_add(BLOCK as u32);
        }
        pull(&mut jb);
    }
    let drift = jb.drift().expect("enough history").0;
    assert!(drift > 0.5, "a fast sender should read as positive drift, got {drift}");
}

#[test]
fn a_scheduling_stall_does_not_cost_audio_that_already_arrived() {
    let mut jb = JitterBuffer::new(BLOCK, 2);
    let base = 600_000u32;
    push_run(&mut jb, base, 40);

    assert_eq!(jb.stats().resyncs, 0, "a 40 ms burst must not force a resync");

    for _ in 0..2 {
        assert_eq!(pull(&mut jb).0, Pull::Priming);
    }
    for expected in 1..=40 {
        let (res, v) = pull(&mut jb);
        assert_eq!(res, Pull::Filled, "packet {expected} after the stall");
        assert_eq!(v, expected as f32);
    }
    assert_eq!(jb.stats().lost, 0);
}

#[test]
fn an_idle_buffer_outputs_silence_rather_than_noise() {
    let mut jb = JitterBuffer::new(BLOCK, 2);
    let mut out = vec![F(9.9); BLOCK];
    assert_eq!(jb.pull(&mut out), Pull::Idle);
    assert!(out.iter().all(|s| s.0 == 0.0));
}

#[test]
fn drift_needs_history_and_the_buffer_has_room() {
    let mut jb = JitterBuffer::<F>::new(BLOCK, 2);
    assert_eq!(jb.capacity(), 64);
    assert_eq!(JitterBuffer::<F>::new(BLOCK, 40).capacity(), 160);
    assert_eq!(JitterBuffer::<F>::new(BLOCK, 0).capacity(), 64);
    assert_eq!(jb.block_size(), BLOCK);
    jb.push(0, &dc(1.0));
    for _ in 0..15 {
        pull(&mut jb);
    }
    assert!(jb.drift().is_none());
    pull(&mut jb);
    assert!(jb.drift().is_some());
    assert_eq!(jb.stats().received, 1);
}

#[test]
fn timestamp_distance_is_signed_and_wraps() {
    assert_eq!(ts_diff(5, 3), 2);
    assert_eq!(ts_diff(3, 5), -2);
    assert_eq!(ts_diff(10, u32::MAX), 11);
    assert_eq!(ts_diff(u32::MAX, 10), -11);
    assert_eq!(ts_diff(0x8000_0000, 0), -0x8000_0000);
}

// One stream, sender to receiver.

fn deliver(tx: &mut StreamSender, rx: &mut StreamReceiver<F>, samples: &[F]) -> bool {
    let packet = tx.packet(samples);
    tx.advance();
    rx.receive(&packet)
}

#[test]
fn audio_survives_the_wire() {
    let mut rx = StreamReceiver::new(BLOCK, 2);
    let mut tx = StreamSender::new(BLOCK, 96, 0x5157_4B01);

    let blocks: Vec<Vec<F>> = (0..16)
        .map(|b| (0..BLOCK).map(|i| F(((b * BLOCK + i) as f32 / 2048.0) - 0.25)).collect())
        .collect();
    let mut datagrams: Vec<Vec<u8>> = Vec::new();
    for b in &blocks {
        datagrams.push(tx.packet(b));
        tx.advance();
    }
    assert_eq!(rx.poll(&datagrams), 16, "all 16 packets should have been accepted");

    let mut out = vec![F(0.0); BLOCK];
    for _ in 0..2 {
        assert_eq!(rx.pull(&mut out), Pull::Priming);
    }
    for (n, expected) in blocks.iter().enumerate() {
        assert_eq!(rx.pull(&mut out), Pull::Filled, "block {n}");
        for (a, b) in out.iter().zip(expected) {
            assert!((a.0 - b.0).abs() < 1e-6, "block {n}: {} != {}", a.0, b.0);
        }
    }
    assert_eq!(rx.jitter().stats().lost, 0);
}

#[test]
fn a_stray_sender_on_the_same_port_cannot_inject_audio() {
    let mut rx = StreamReceiver::new(BLOCK, 1);
    let mut wanted = StreamSender::new(BLOCK, 96, 0x1111_1111);
    let mut stray = StreamSender::new(BLOCK, 96, 0x2222_2222);

    assert!(deliver(&mut wanted, &mut rx, &[F(0.25); BLOCK]));
    assert!(!deliver(&mut stray, &mut rx, &[F(-0.75); BLOCK]));
    assert!(deliver(&mut wanted, &mut rx, &[F(0.25); BLOCK]));
    assert_eq!(rx.foreign_packets(), 1, "the stray SSRC should have been counted and dropped");

    let mut out = vec![F(0.0); BLOCK];
    rx.pull(&mut out);
    assert_eq!(rx.pull(&mut out), Pull::Filled);
    assert!((out[0].0 - 0.25).abs() < 1e-6, "stray audio leaked in: {}", out[0].0);
}

#[test]
fn a_packet_with_the_wrong_geometry_is_dropped_not_decoded() {
    let mut rx = StreamReceiver::<F>::new(BLOCK, 1);
    let mut wrong = StreamSender::new(96, 96, 0x3333_3333);
    assert!(!deliver(&mut wrong, &mut rx, &[F(0.5); 96]), "a 2 ms packet must not be accepted as 1 ms");
    assert!(!rx.receive(&[1, 2, 3]), "no RTP");
    assert_eq!(rx.jitter().stats().received, 0);
}

#[test]
fn packets_are_evenly_spaced_and_can_be_stamped() {
    let mut tx = StreamSender::new(BLOCK, 96, 0xFFFF_FFFF);
    assert_eq!(tx.ssrc(), 0xFFFF_FFFF);
    let (first, _) = RtpHeader::parse(&tx.packet(&[F(0.0); BLOCK])).unwrap();
    assert_eq!((first.sequence, first.timestamp), (0xFFFF, 0xFFFF_FFFF));
    tx.advance();
    assert_eq!(tx.next_timestamp(), 47);
    let (second, _) = RtpHeader::parse(&tx.packet(&[F(0.0); BLOCK])).unwrap();
    assert_eq!((second.sequence, second.timestamp), (0, 47));
    tx.stamp(1000);
    let (third, _) = RtpHeader::parse(&tx.packet(&[F(0.0); BLOCK])).unwrap();
    assert_eq!((third.sequence, third.timestamp, third.payload_type), (0, 1000, 96));
}
