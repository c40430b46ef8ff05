//! A synthetic grandmaster, for exercising a slave without a real one.
//!
//! It never yields to a better clock, and answers every Delay_Req on its domain.

use vstd::prelude::*;

use crate::bytes::{be_bytes, lemma_be_bytes_len, overwrite, push_be};
use crate::ptp::message::{
    lemma_header_len, lemma_timestamp_len, message_error, message_is, no_flags, ClockIdentity, Flags, Header,
    Message, MessageType, PortIdentity, Timestamp, HEADER_LEN, TIMESTAMP_LEN,
};
use crate::ptp::port::next_sequence;
use crate::ptp::shared::{shift_nanos, shifted, timestamp_from_nanos, timestamp_of};

verus! {

/// How often the grandmaster announces itself: ten times a second.
pub const ANNOUNCE_INTERVAL_NANOS: u64 = 100_000_000;

/// How often the grandmaster sends a Sync: fifty times a second.
pub const SYNC_INTERVAL_NANOS: u64 = 20_000_000;

/// A synthetic grandmaster without its sockets.
pub struct Grandmaster {
    identity: PortIdentity,
    domain: u8,
    offset_nanos: i64,
    seq: u16,
    last_sync: u64,
    last_announce: Option<u64>,
}

/// The grandmaster as a mathematical value.
pub struct GrandmasterView {
    pub identity: PortIdentity,
    pub domain: u8,
    pub offset: int,
    pub seq: u16,
    pub last_sync: u64,
    /// When it last announced itself; it has yet to, at first.
    pub last_announce: Option<u64>,
}

impl View for Grandmaster {
    type V = GrandmasterView;

    closed spec fn view(&self) -> GrandmasterView {
        GrandmasterView {
            identity: self.identity,
            domain: self.domain,
            offset: self.offset_nanos as int,
            seq: self.seq,
            last_sync: self.last_sync,
            last_announce: self.last_announce,
        }
    }
}

/// The flags of a message.
pub open spec fn flags_for(two_step: bool) -> Flags {
    Flags { two_step, ptp_timescale: true, ..no_flags() }
}

/// The header of a message.
pub open spec fn header_for(
    identity: PortIdentity,
    domain: u8,
    kind: MessageType,
    seq: u16,
    two_step: bool,
) -> Header {
    Header {
        message_type: kind,
        domain,
        flags: flags_for(two_step),
        correction_subnanos: 0,
        source: identity,
        sequence_id: seq,
        log_message_interval: (-4) as i8,
    }
}

/// The header of a message.
pub fn header(identity: PortIdentity, domain: u8, kind: MessageType, seq: u16, two_step: bool) -> (h: Header)
    ensures
        h == header_for(identity, domain, kind, seq, two_step),
{
    Header {
        message_type: kind,
        domain,
        flags: Flags {
            two_step,
            unicast: false,
            leap61: false,
            leap59: false,
            utc_offset_valid: false,
            ptp_timescale: true,
            time_traceable: false,
            frequency_traceable: false,
        },
        correction_subnanos: 0,
        source: identity,
        sequence_id: seq,
        log_message_interval: -4,
    }
}

/// The grandmaster's time, from a local nanosecond count.
pub fn now_with_offset(total: u128, offset_nanos: i64) -> (r: Timestamp)
    requires
        total + i64::MAX <= i128::MAX,
    ensures
        r == timestamp_of(shifted(total as int, offset_nanos as int)),
{
    timestamp_from_nanos(shift_nanos(total, offset_nanos))
}

/// What the grandmaster says of itself: GPS-locked, ordinary priorities, 37 s of UTC
/// offset.
pub open spec fn announce_body(identity: PortIdentity) -> Seq<u8> {
    be_bytes(0, 8) + be_bytes(0, 2) + be_bytes(37, 2) + seq![0u8, 128u8, 6u8, 0x21u8] + be_bytes(0x436A, 2) + seq![
        128u8,
    ] + identity.clock@ + be_bytes(0, 2) + seq![0x20u8]
}

/// What asking for an Announce gives, and what it leaves.
pub open spec fn announce_made(v: GrandmasterView, now: u64, packet: Option<Seq<u8>>, after: GrandmasterView) -> bool {
    match packet {
        Some(b) => {
            &&& match v.last_announce {
                Some(at) => shifted(now as int, -(at as int)) >= ANNOUNCE_INTERVAL_NANOS,
                None => true,
            }
            &&& after == (GrandmasterView { last_announce: Some(now), ..v })
            &&& b == header_for(v.identity, v.domain, MessageType::Announce, v.seq, false).wire(64, 5) + announce_body(
                v.identity,
            )
        },
        None => {
            &&& v.last_announce is Some
            &&& shifted(now as int, -(v.last_announce->0 as int)) < ANNOUNCE_INTERVAL_NANOS
            &&& after == v
        },
    }
}

/// What asking for a Sync gives, and what it leaves.
pub open spec fn sync_made(v: GrandmasterView, now: u64, packet: Option<Seq<u8>>, after: GrandmasterView) -> bool {
    match packet {
        Some(b) => {
            &&& shifted(now as int, -(v.last_sync as int)) >= SYNC_INTERVAL_NANOS
            &&& after == (GrandmasterView { seq: next_sequence(v.seq), last_sync: now, ..v })
            &&& b == header_for(v.identity, v.domain, MessageType::Sync, after.seq, true).wire(44, 0) + (Timestamp {
                seconds: 0,
                nanos: 0,
            }).wire()
        },
        None => {
            &&& shifted(now as int, -(v.last_sync as int)) < SYNC_INTERVAL_NANOS
            &&& after == v
        },
    }
}

/// A message of a header and a body.
fn compose<const N: usize>(h: &Header, length: u16, control: u8, body: &Vec<u8>) -> (packet: [u8; N])
    requires
        N == HEADER_LEN + body@.len(),
    ensures
        packet@ == h.wire(length, control) + body@,
{
    let mut packet = [0u8; N];
    let mut head = [0u8; HEADER_LEN];
    h.write(length, control, &mut head);
    proof {
        lemma_header_len(*h, length, control);
        assert(head@ =~= h.wire(length, control));
    }
    overwrite(&mut packet, 0, &head);
    overwrite(&mut packet, HEADER_LEN, body.as_slice());
    assert(packet@ =~= h.wire(length, control) + body@);
    packet
}

/// Bytes that carry a timestamp.
fn timestamp_body(t: Timestamp) -> (body: Vec<u8>)
    ensures
        body@ == t.wire(),
        body@.len() == TIMESTAMP_LEN,
{
    let mut body: Vec<u8> = Vec::new();
    push_be(&mut body, t.seconds, 6);
    push_be(&mut body, t.nanos as u64, 4);
    proof {
        lemma_timestamp_len(t);
        assert(body@ =~= t.wire());
    }
    body
}

impl Grandmaster {
    /// A grandmaster whose clock is `offset_nanos` from local time.
    pub fn new(domain: u8, offset_nanos: i64, now: u64) -> (r: Self)
        ensures
            r@.domain == domain,
            r@.offset == offset_nanos,
            r@.identity.clock@ == seq![0x02u8, 0xAAu8, 0xBBu8, 0xFFu8, 0xFEu8, 0xCCu8, 0xDDu8, 0xEEu8],
            r@.identity.port == 1,
            r@.seq == 0,
            r@.last_sync == now,
            r@.last_announce is None,
    {
        let clock = ClockIdentity::from_mac([0x02, 0xAA, 0xBB, 0xCC, 0xDD, 0xEE]);
        Grandmaster {
            identity: PortIdentity { clock, port: 1 },
            domain,
            offset_nanos,
            seq: 0,
            last_sync: now,
            last_announce: None,
        }
    }

    pub fn identity(&self) -> (r: PortIdentity)
        ensures
            r == self@.identity,
    {
        self.identity
    }

    pub fn offset_nanos(&self) -> (r: i64)
        ensures
            r == self@.offset,
    {
        self.offset_nanos
    }

    /// This master's time, from a local nanosecond count.
    pub fn now(&self, total: u128) -> (r: Timestamp)
        requires
            total + i64::MAX <= i128::MAX,
        ensures
            r == timestamp_of(shifted(total as int, self@.offset)),
    {
        now_with_offset(total, self.offset_nanos)
    }

    /// The Announce to send now, if one is due.
    pub fn announce_due(&mut self, now: u64) -> (r: Option<[u8; 64]>)
        ensures
            announce_made(
                old(self)@,
                now,
                match r {
                    Some(packet) => Some(packet@),
                    None => None,
                },
                final(self)@,
            ),
    {
        if let Some(at) = self.last_announce {
            if now.saturating_sub(at) < ANNOUNCE_INTERVAL_NANOS {
                return None;
            }
        }
        let h = header(self.identity, self.domain, MessageType::Announce, self.seq, false);
        let mut body: Vec<u8> = Vec::new();
        push_be(&mut body, 0, 8);
        push_be(&mut body, 0, 2);
        push_be(&mut body, 37, 2);
        body.push(0);
        body.push(128);
        body.push(6);
        body.push(0x21);
        push_be(&mut body, 0x436A, 2);
        body.push(128);
        let mut i: usize = 0;
        let ghost head = body@;
        while i < 8
            invariant
                i <= 8,
                body@ == head + self.identity.clock@.take(i as int),
            decreases 8 - i,
        {
            body.push(self.identity.clock.0[i]);
            i += 1;
            assert(body@ =~= head + self.identity.clock@.take(i as int));
        }
        assert(self.identity.clock@.take(8) =~= self.identity.clock@);
        push_be(&mut body, 0, 2);
        body.push(0x20);
        proof {
            lemma_be_bytes_len(0, 8);
            lemma_be_bytes_len(0, 2);
            lemma_be_bytes_len(37, 2);
            lemma_be_bytes_len(0x436A, 2);
            assert(body@ =~= announce_body(self.identity));
        }
        self.last_announce = Some(now);
        Some(compose::<64>(&h, 64, 5, &body))
    }

    /// The Sync to send now, if one is due. Its timestamp is a placeholder: the time it
    /// left follows on.
    pub fn sync_due(&mut self, now: u64) -> (r: Option<[u8; 44]>)
        ensures
            sync_made(
                old(self)@,
                now,
                match r {
                    Some(packet) => Some(packet@),
                    None => None,
                },
                final(self)@,
            ),
    {
        if now.saturating_sub(self.last_sync) < SYNC_INTERVAL_NANOS {
            return None;
        }
        self.seq = self.seq.wrapping_add(1);
        self.last_sync = now;
        let h = header(self.identity, self.domain, MessageType::Sync, self.seq, true);
        let body = timestamp_body(Timestamp::default());
        Some(compose::<44>(&h, 44, 0, &body))
    }

    /// The Follow_Up to the last Sync, which left at `t1`.
    pub fn follow_up(&self, t1: Timestamp) -> (packet: [u8; 44])
        ensures
            packet@ == header_for(self@.identity, self@.domain, MessageType::FollowUp, self@.seq, false).wire(44, 2)
                + t1.wire(),
    {
        let h = header(self.identity, self.domain, MessageType::FollowUp, self.seq, false);
        let body = timestamp_body(t1);
        compose::<44>(&h, 44, 2, &body)
    }

    /// The answer to a datagram that arrived at `t4`: a Delay_Resp to a Delay_Req on this
    /// domain, and nothing to anything else.
    pub fn answer(&self, datagram: &[u8], t4: Timestamp) -> (r: Option<[u8; 54]>)
        ensures
            match r {
                Some(packet) => {
                    &&& message_error(datagram@) is None
                    &&& exists|m: Message| #[trigger]
                        message_is(m, datagram@) && m.header.message_type == MessageType::DelayReq
                            && m.header.domain == self@.domain && packet@ == header_for(
                            self@.identity,
                            self@.domain,
                            MessageType::DelayResp,
                            m.header.sequence_id,
                            false,
                        ).wire(54, 3) + t4.wire() + m.header.source.wire()
                },
                None => message_error(datagram@) is Some || exists|m: Message| #[trigger]
                    message_is(m, datagram@) && !(m.header.message_type == MessageType::DelayReq
                        && m.header.domain == self@.domain),
            },
    {
        let msg = match Message::parse(datagram) {
            Ok(m) => m,
            Err(_) => {
                return None;
            },
        };
        assert(message_is(msg, datagram@));
        if msg.header.message_type != MessageType::DelayReq || msg.header.domain != self.domain {
            return None;
        }
        let h = header(self.identity, self.domain, MessageType::DelayResp, msg.header.sequence_id, false);
        let mut body = timestamp_body(t4);
        let mut source = [0u8; 10];
        msg.header.source.write(&mut source);
        proof {
            lemma_be_bytes_len(msg.header.source.port as nat, 2);
            assert(source@ =~= msg.header.source.wire());
        }
        let mut i: usize = 0;
        while i < 10
            invariant
                i <= 10,
                body@ == t4.wire() + source@.take(i as int),
            decreases 10 - i,
        {
            body.push(source[i]);
            i += 1;
            assert(body@ =~= t4.wire() + source@.take(i as int));
        }
        assert(source@.take(10) =~= source@);
        proof {
            lemma_timestamp_len(t4);
            lemma_header_len(h, 54, 3);
        }
        let packet = compose::<54>(&h, 54, 3, &body);
        assert(packet@ =~= h.wire(54, 3) + t4.wire() + msg.header.source.wire());
        Some(packet)
    }
}

} // verus!
