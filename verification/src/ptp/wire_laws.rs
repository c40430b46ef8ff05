//! Where everything stands in a PTP message, byte by byte.

use vstd::prelude::*;

use crate::bytes::{be_bytes, be_value, lemma_radix_values};
use crate::ptp::message::{
    delay_req_wire, hex_digit, hyphenated, message_is, Body, ClockIdentity, Header, Message, MessageType,
    PortIdentity, PtpError, Timestamp,
};
use crate::ptp::port::{
    datagram_received, interval_set, port_ticked, request_sent, requested, PortView, PtpPort, PtpStatus,
    AES67_DEFAULT_DOMAIN, PORT_EVENT, PORT_GENERAL, PTP_PRIMARY, PTP_TTL,
};
use crate::ptp::servo_laws::flat;
use crate::ptp::slave::{received, ticked, Event};
use crate::sample::Sample;
use crate::text::{decimal, low_hex};

verus! {

/// The number in two bytes, most significant first.
pub open spec fn two(b: Seq<u8>, i: int) -> int {
    b[i] * 256 + b[i + 1]
}

/// The number in four bytes, most significant first.
pub open spec fn four(b: Seq<u8>, i: int) -> int {
    two(b, i) * 65536 + two(b, i + 2)
}

/// The number in six bytes, most significant first.
pub open spec fn six(b: Seq<u8>, i: int) -> int {
    two(b, i) * 0x1_0000_0000 + four(b, i + 2)
}

/// The number in eight bytes, most significant first.
pub open spec fn eight(b: Seq<u8>, i: int) -> int {
    four(b, i) * 0x1_0000_0000 + four(b, i + 4)
}

proof fn lemma_spelled(b: Seq<u8>, i: int)
    requires
        0 <= i,
    ensures
        i + 2 <= b.len() ==> be_value(b.subrange(i, i + 2)) == two(b, i),
        i + 4 <= b.len() ==> be_value(b.subrange(i, i + 4)) == four(b, i),
        i + 6 <= b.len() ==> be_value(b.subrange(i, i + 6)) == six(b, i),
        i + 8 <= b.len() ==> be_value(b.subrange(i, i + 8)) == eight(b, i),
{
    reveal_with_fuel(be_value, 9);
    if i + 2 <= b.len() {
        let s = b.subrange(i, i + 2);
        assert(s.drop_last().last() == b[i]);
    }
    if i + 4 <= b.len() {
        lemma_spelled_tail(b, i, 4);
        lemma_spelled_tail(b, i, 3);
        lemma_spelled_tail(b, i, 2);
        lemma_spelled_tail(b, i, 1);
    }
    if i + 6 <= b.len() {
        lemma_spelled_tail(b, i, 6);
        lemma_spelled_tail(b, i, 5);
    }
    if i + 8 <= b.len() {
        lemma_spelled_tail(b, i, 8);
        lemma_spelled_tail(b, i, 7);
    }
}

proof fn lemma_spelled_tail(b: Seq<u8>, i: int, n: int)
    requires
        0 <= i,
        1 <= n,
        i + n <= b.len(),
    ensures
        be_value(b.subrange(i, i + n)) == be_value(b.subrange(i, i + n - 1)) * 256 + b[i + n - 1],
{
    let s = b.subrange(i, i + n);
    assert(s.drop_last() =~= b.subrange(i, i + n - 1));
}

/// The message type that a code stands for.
pub open spec fn type_for(code: int, t: MessageType) -> bool {
    match t {
        MessageType::Sync => code == 0,
        MessageType::DelayReq => code == 1,
        MessageType::PdelayReq => code == 2,
        MessageType::PdelayResp => code == 3,
        MessageType::FollowUp => code == 8,
        MessageType::DelayResp => code == 9,
        MessageType::PdelayRespFollowUp => code == 10,
        MessageType::Announce => code == 11,
        MessageType::Signaling => code == 12,
        MessageType::Management => code == 13,
        MessageType::Unknown(v) => v == code && (4 <= code < 8 || 14 <= code < 16),
    }
}

/// Whether a bit of a byte is set.
pub open spec fn bit(b: u8, weight: int) -> bool {
    (b as int / weight) % 2 == 1
}

/// A signed number out of an unsigned one of so many values.
pub open spec fn signed_of(v: int, values: int) -> int {
    if 2 * v < values {
        v
    } else {
        v - values
    }
}

/// The header of a message stands in its first thirty-four bytes.
pub proof fn law_header_is_read_from_its_bytes(buf: &[u8], m: Message)
    requires
        call_ensures(Message::parse, (buf,), Ok::<Message, PtpError>(m)),
    ensures
        buf@.len() >= 34,
        buf@[1] % 16 == 2,
        type_for(buf@[0] as int % 16, m.header.message_type),
        m.header.domain == buf@[4],
        m.header.flags.two_step == bit(buf@[6], 2),
        m.header.flags.unicast == bit(buf@[6], 4),
        m.header.flags.leap61 == bit(buf@[7], 1),
        m.header.flags.leap59 == bit(buf@[7], 2),
        m.header.flags.utc_offset_valid == bit(buf@[7], 4),
        m.header.flags.ptp_timescale == bit(buf@[7], 8),
        m.header.flags.time_traceable == bit(buf@[7], 16),
        m.header.flags.frequency_traceable == bit(buf@[7], 32),
        m.header.correction_subnanos == signed_of(eight(buf@, 8), 0x1_0000_0000_0000_0000),
        forall|j: int| 0 <= j < 8 ==> #[trigger] m.header.source.clock.0@[j] == buf@[20 + j],
        m.header.source.port == two(buf@, 28),
        m.header.sequence_id == two(buf@, 30),
        m.header.log_message_interval == signed_of(buf@[33] as int, 256),
{
    lemma_radix_values();
    lemma_spelled(buf@, 8);
    lemma_spelled(buf@, 30);
    let port = buf@.subrange(20, 30);
    lemma_spelled(port, 8);
    assert forall|j: int| 0 <= j < 8 implies #[trigger] m.header.source.clock.0@[j] == buf@[20 + j] by {
        assert(m.header.source.clock@ == port.subrange(0, 8));
        assert(m.header.source.clock@[j] == port[j]);
    }
}

/// The body of a message stands behind its header: a timestamp of six bytes of seconds and four
/// of nanoseconds, and what follows it.
pub proof fn law_body_is_read_from_its_bytes(buf: &[u8], m: Message)
    requires
        call_ensures(Message::parse, (buf,), Ok::<Message, PtpError>(m)),
    ensures
        match m.body {
            Body::Sync { origin } => {
                &&& buf@[0] % 16 == 0
                &&& buf@.len() >= 44
                &&& origin.seconds == six(buf@, 34)
                &&& origin.nanos == four(buf@, 40)
            },
            Body::DelayReq { origin } => {
                &&& buf@[0] % 16 == 1
                &&& buf@.len() >= 44
                &&& origin.seconds == six(buf@, 34)
                &&& origin.nanos == four(buf@, 40)
            },
            Body::FollowUp { precise_origin } => {
                &&& buf@[0] % 16 == 8
                &&& buf@.len() >= 44
                &&& precise_origin.seconds == six(buf@, 34)
                &&& precise_origin.nanos == four(buf@, 40)
            },
            Body::DelayResp { receive, requesting } => {
                &&& buf@[0] % 16 == 9
                &&& buf@.len() >= 54
                &&& receive.seconds == six(buf@, 34)
                &&& receive.nanos == four(buf@, 40)
                &&& forall|j: int| 0 <= j < 8 ==> #[trigger] requesting.clock.0@[j] == buf@[44 + j]
                &&& requesting.port == two(buf@, 52)
            },
            Body::Announce(a) => {
                &&& buf@[0] % 16 == 11
                &&& buf@.len() >= 64
                &&& a.current_utc_offset == signed_of(two(buf@, 44), 65536)
                &&& a.grandmaster_priority1 == buf@[47]
                &&& a.grandmaster_quality.class == buf@[48]
                &&& a.grandmaster_quality.accuracy == buf@[49]
                &&& a.grandmaster_quality.offset_scaled_log_variance == two(buf@, 50)
                &&& a.grandmaster_priority2 == buf@[52]
                &&& forall|j: int| 0 <= j < 8 ==> #[trigger] a.grandmaster_identity.0@[j] == buf@[53 + j]
                &&& a.steps_removed == two(buf@, 61)
                &&& a.time_source == buf@[63]
            },
            Body::Other => {
                let code = buf@[0] % 16;
                code != 0 && code != 1 && code != 8 && code != 9 && code != 11
            },
        },
{
    lemma_radix_values();
    let body = buf@.skip(34);
    lemma_spelled(body, 0);
    lemma_spelled(body, 6);
    lemma_spelled(body, 10);
    lemma_spelled(body, 16);
    lemma_spelled(body, 27);
    match m.body {
        Body::DelayResp { receive, requesting } => {
            let port = body.subrange(10, 20);
            lemma_spelled(port, 8);
            assert forall|j: int| 0 <= j < 8 implies #[trigger] requesting.clock.0@[j] == buf@[44 + j] by {
                assert(requesting.clock@ == port.subrange(0, 8));
                assert(requesting.clock@[j] == port[j]);
            }
        },
        Body::Announce(a) => {
            assert forall|j: int| 0 <= j < 8 implies #[trigger] a.grandmaster_identity.0@[j] == buf@[53 + j] by {
                assert(a.grandmaster_identity@ == body.subrange(19, 27));
                assert(a.grandmaster_identity@[j] == body[19 + j]);
            }
        },
        _ => {},
    }
}

/// How many bytes the body of a message of this code takes.
pub open spec fn least_body(code: int) -> int {
    if code == 0 || code == 1 || code == 8 {
        10
    } else if code == 9 {
        20
    } else if code == 11 {
        30
    } else {
        0
    }
}

/// A buffer is a message exactly if it holds a header of version two and the whole body of its
/// type, with less than a second of nanoseconds in its timestamp; and what is wrong with any
/// other is said.
pub proof fn law_what_is_no_message_is_refused(buf: &[u8], r: Result<Message, PtpError>)
    requires
        call_ensures(Message::parse, (buf,), r),
    ensures
        ({
            let b = buf@;
            let code = b[0] as int % 16;
            let stamped = code == 0 || code == 1 || code == 8 || code == 9;
            if b.len() < 34 {
                r == Err::<Message, PtpError>(PtpError::TooShort(b.len() as usize))
            } else if b[1] % 16 != 2 {
                r == Err::<Message, PtpError>(PtpError::BadVersion(b[1] % 16))
            } else if b.len() < 34 + least_body(code) {
                r == Err::<Message, PtpError>(PtpError::TruncatedBody(code as u8, (b.len() - 34) as usize))
            } else if stamped && four(b, 40) >= 1_000_000_000 {
                r == Err::<Message, PtpError>(PtpError::BadTimestamp(four(b, 40) as u32))
            } else {
                r is Ok
            }
        }),
{
    let body = buf@.skip(34);
    if buf@.len() >= 44 {
        lemma_spelled(body, 6);
        assert(four(body, 6) == four(buf@, 40));
    }
}

pub proof fn lemma_be_two(v: nat)
    requires
        v < 65536,
    ensures
        be_bytes(v, 2) == seq![(v / 256) as u8, (v % 256) as u8],
{
    reveal_with_fuel(be_bytes, 3);
    assert(be_bytes(v, 2) =~= seq![(v / 256) as u8, (v % 256) as u8]);
}

pub proof fn lemma_be_nothing(n: nat)
    ensures
        be_bytes(0, n).len() == n,
        forall|i: int| 0 <= i < n ==> #[trigger] be_bytes(0, n)[i] == 0,
    decreases n,
{
    if n > 0 {
        lemma_be_nothing((n - 1) as nat);
    }
}

/// A Delay_Req is forty-four bytes: its type and version, its length, its domain, its source and
/// its sequence id, and nothing else but the control and the interval that its type asks for.
pub proof fn law_delay_req_bytes(source: PortIdentity, domain: u8, sequence_id: u16)
    ensures
        ({
            let b = delay_req_wire(source, domain, sequence_id);
            &&& b.len() == 44
            &&& b[0] == 1
            &&& b[1] == 2
            &&& b[2] == 0
            &&& b[3] == 44
            &&& b[4] == domain
            &&& forall|i: int| 5 <= i < 20 ==> #[trigger] b[i] == 0
            &&& forall|j: int| 0 <= j < 8 ==> #[trigger] b[20 + j] == source.clock.0@[j]
            &&& two(b, 28) == source.port
            &&& two(b, 30) == sequence_id
            &&& b[32] == 1
            &&& b[33] == 0x7f
            &&& forall|i: int| 34 <= i < 44 ==> #[trigger] b[i] == 0
        }),
{
    lemma_be_two(44);
    lemma_be_two(source.port as nat);
    lemma_be_two(sequence_id as nat);
    lemma_be_nothing(8);
    lemma_be_nothing(4);
    lemma_be_nothing(6);
    let b = delay_req_wire(source, domain, sequence_id);
    assert(b.len() == 44);
    assert forall|i: int| 5 <= i < 20 implies #[trigger] b[i] == 0 by {
        if i >= 8 && i < 16 {
            assert(be_bytes(0, 8)[i - 8] == 0);
        } else if i >= 16 {
            assert(be_bytes(0, 4)[i - 16] == 0);
        }
    }
    assert forall|i: int| 34 <= i < 44 implies #[trigger] b[i] == 0 by {
        if i < 40 {
            assert(be_bytes(0, 6)[i - 34] == 0);
        } else {
            assert(be_bytes(0, 4)[i - 40] == 0);
        }
    }
}

/// A Delay_Req is due once a master is followed and a Sync has been paired, and a whole interval
/// has passed since the last one; it goes out under the sequence id after the last, with the
/// port's own identity and domain in it, and nothing else about the port changes.
pub proof fn law_delay_is_asked_for_when_it_is_due<S: Sample>(
    v: PortView<S>,
    now: u64,
    packet: Option<Seq<u8>>,
    after: PortView<S>,
)
    requires
        requested(v, now, packet, after),
        v.delay_interval > 0,
    ensures
        packet is Some <==> v.slave.master is Some && v.slave.last_sync is Some && now >= v.last_delay_req
            + v.delay_interval,
        after.slave == v.slave,
        after.last_delay_req == v.last_delay_req,
        after.delay_interval == v.delay_interval,
        packet is None ==> after.delay_seq == v.delay_seq,
        packet matches Some(b) ==> {
            &&& after.delay_seq == (v.delay_seq + 1) % 65536
            &&& b.len() == 44
            &&& b[0] == 1
            &&& b[4] == v.slave.domain
            &&& forall|j: int| 0 <= j < 8 ==> #[trigger] b[20 + j] == v.slave.identity.clock.0@[j]
            &&& two(b, 28) == v.slave.identity.port
            &&& two(b, 30) == after.delay_seq
        },
{
    law_delay_req_bytes(v.slave.identity, v.slave.domain, after.delay_seq);
}

/// The time between Delay_Reqs is what it was set to, and nothing else changes by setting it.
pub proof fn law_interval_is_what_it_was_set_to<S: Sample>(v: PortView<S>, interval: u64)
    ensures
        interval_set(v, interval).delay_interval == interval,
        interval_set(v, interval).slave == v.slave,
        interval_set(v, interval).last_delay_req == v.last_delay_req,
        interval_set(v, interval).delay_seq == v.delay_seq,
{
}

/// What is no PTP message changes nothing. What is one changes the slave alone, and says nothing
/// where it is of another domain.
pub proof fn law_datagrams_reach_the_slave<S: Sample>(
    v: PortView<S>,
    datagram: &[u8],
    rx: Timestamp,
    now: u64,
    after: PortView<S>,
    event: Option<Event>,
    parsed: Result<Message, PtpError>,
)
    requires
        datagram_received(v, datagram@, rx, now, after, event),
        call_ensures(Message::parse, (datagram,), parsed),
    ensures
        parsed is Err ==> after == v && event is None,
        parsed is Ok ==> exists|m: Message| #[trigger]
            message_is(m, datagram@) && received(v.slave, m, rx, now, after.slave, event),
        parsed is Ok && datagram@[4] != v.slave.domain ==> event is None && after.slave.servo == v.slave.servo
            && after.slave.master == v.slave.master && after.slave.masters == v.slave.masters,
        after.delay_interval == v.delay_interval,
        after.last_delay_req == v.last_delay_req,
        after.delay_seq == v.delay_seq,
{
}

/// Passing time changes the slave alone.
pub proof fn law_time_passes_for_the_slave<S: Sample>(v: PortView<S>, now: u64, after: PortView<S>, event: Option<Event>)
    requires
        port_ticked(v, now, after, event),
    ensures
        ticked(v.slave, now, after.slave, event),
        after.delay_interval == v.delay_interval,
        after.last_delay_req == v.last_delay_req,
        after.delay_seq == v.delay_seq,
{
}

/// Once a Delay_Req has gone out, the answer that is waited for carries its sequence id, and the
/// time it left is remembered with it; the next is an interval away.
pub proof fn law_answer_is_waited_for<S: Sample>(v: PortView<S>, t3: Timestamp, now: u64)
    ensures
        ({
            let after = request_sent(v, t3, now);
            &&& after.slave.pending_delay matches Some((seq, t)) && seq == v.delay_seq && t == t3
            &&& after.last_delay_req == now
            &&& after.delay_seq == v.delay_seq
            &&& after.delay_interval == v.delay_interval
            &&& after.slave.last_sync == v.slave.last_sync
            &&& after.slave.master == v.slave.master
            &&& after.slave.servo == v.slave.servo
            &&& after.slave.pending_sync == v.slave.pending_sync
            &&& after.slave.stats == v.slave.stats
        }),
{
}

/// PTP time, as believed, is local time and the servo's offset.
pub proof fn law_ptp_time_is_corrected_local_time<S: Sample>(p: PtpPort<S>, local: u128, t: Timestamp)
    requires
        call_ensures(PtpPort::<S>::ptp_now, (&p, local), t),
        0 <= local + p@.slave.servo.offset < 0x1_0000_0000_0000_0000 * 1_000_000_000,
    ensures
        flat(t) == local + p@.slave.servo.offset,
        t.nanos < 1_000_000_000,
{
}

/// A new port asks for the path delay every second, and has asked for none.
pub proof fn law_new_port_asks_every_second<S: Sample>(
    identity: PortIdentity,
    domain: u8,
    now: u64,
    p: PtpPort<S>,
)
    requires
        call_ensures(PtpPort::<S>::new, (identity, domain, now), p),
    ensures
        p@.delay_interval == 1_000_000_000,
        p@.last_delay_req == now,
        p@.slave.identity == identity,
        p@.slave.domain == domain,
        p@.slave.master is None,
        p@.slave.masters.len() == 0,
        p@.slave.last_sync is None,
        p@.slave.pending_delay is None,
        p@.slave.last_measurement is None,
        p@.slave.servo.offset == 0,
{
}

/// The status shows what the port is doing: its own domain, the master it follows, the last
/// measurement, the servo's state and steps, and every count.
pub proof fn law_status_shows_the_port<S: Sample>(p: PtpPort<S>, r: PtpStatus)
    requires
        call_ensures(PtpPort::<S>::status, (&p,), r),
    ensures
        r.domain == p@.slave.domain,
        r.grandmaster is Some <==> p@.slave.master is Some,
        r.masters_seen == p@.slave.masters.len(),
        r.state == p@.slave.servo.state,
        r.steps == p@.slave.servo.steps,
        r.stats == p@.slave.stats,
        p@.slave.last_measurement matches Some(m) ==> r.offset_nanos == m.offset_nanos && r.delay_nanos
            == m.delay_nanos,
        p@.slave.last_measurement is None ==> r.offset_nanos == 0 && r.delay_nanos == 0,
        p@.slave.master matches Some(m) ==> spells(r.grandmaster->0@, m.grandmaster.0@),
{
    if let Some(m) = p@.slave.master {
        lemma_spells(m.grandmaster.0@);
    }
}

/// What a hexadecimal digit counts.
pub open spec fn digit_value(c: char) -> int {
    if '0' <= c <= '9' {
        c as int - '0' as int
    } else if 'A' <= c <= 'F' {
        c as int - 'A' as int + 10
    } else {
        -1
    }
}

/// Whether text spells bytes as pairs of hexadecimal digits with hyphens between them.
pub open spec fn spells(text: Seq<char>, bytes: Seq<u8>) -> bool {
    &&& text.len() == 3 * bytes.len() - 1
    &&& forall|j: int|
        0 <= j < bytes.len() ==> digit_value(text[3 * j]) * 16 + digit_value(text[3 * j + 1]) == #[trigger] bytes[j]
            && digit_value(text[3 * j]) >= 0 && digit_value(text[3 * j + 1]) >= 0 && (j + 1 < bytes.len() ==> text[3 * j
            + 2] == '-')
}

proof fn lemma_digit(d: int)
    requires
        0 <= d < 16,
    ensures
        digit_value(hex_digit(d)) == d,
{
}

proof fn lemma_spells(bytes: Seq<u8>)
    requires
        bytes.len() > 0,
    ensures
        spells(hyphenated(bytes), bytes),
    decreases bytes.len(),
{
    let text = hyphenated(bytes);
    let b = bytes.last();
    lemma_digit((b / 16) as int);
    lemma_digit((b % 16) as int);
    if bytes.len() > 1 {
        let rest = bytes.drop_last();
        lemma_spells(rest);
        let head = hyphenated(rest);
        assert forall|j: int| 0 <= j < bytes.len() implies digit_value(text[3 * j]) * 16 + digit_value(text[3 * j + 1])
            == #[trigger] bytes[j] && digit_value(text[3 * j]) >= 0 && digit_value(text[3 * j + 1]) >= 0 && (j + 1
            < bytes.len() ==> text[3 * j + 2] == '-') by {
            if j < rest.len() {
                assert(rest[j] == bytes[j]);
                assert(text[3 * j] == head[3 * j]);
                assert(text[3 * j + 1] == head[3 * j + 1]);
                if j + 1 < rest.len() {
                    assert(text[3 * j + 2] == head[3 * j + 2]);
                }
            }
        }
    }
}

/// A clock's identity reads as its bytes in hexadecimal.
pub proof fn law_identity_text(id: ClockIdentity, r: String)
    requires
        call_ensures(ClockIdentity::text, (&id,), r),
    ensures
        spells(r@, id.0@),
{
    lemma_spells(id.0@);
}

/// An identity made of a MAC address is its two halves, with FF and FE between them.
pub proof fn law_identity_of_a_mac(mac: [u8; 6], id: ClockIdentity)
    requires
        call_ensures(ClockIdentity::from_mac, (mac,), id),
    ensures
        forall|j: int| 0 <= j < 3 ==> #[trigger] id.0@[j] == mac@[j],
        id.0@[3] == 0xFF,
        id.0@[4] == 0xFE,
        forall|j: int| 5 <= j < 8 ==> #[trigger] id.0@[j] == mac@[j - 2],
{
}

/// The difference of two timestamps is the nanoseconds between them, or the nearest number that
/// can be held.
pub proof fn law_difference_is_nanoseconds_between(a: Timestamp, b: Timestamp, r: i64)
    requires
        call_ensures(Timestamp::diff_nanos, (a, b), r),
    ensures
        i64::MIN <= flat(a) - flat(b) <= i64::MAX ==> r == flat(a) - flat(b),
        flat(a) - flat(b) > i64::MAX ==> r == i64::MAX,
        flat(a) - flat(b) < i64::MIN ==> r == i64::MIN,
{
}

/// The correction of a header is its field in parts of 65536, rounded down.
pub proof fn law_correction_is_rounded_down(h: Header, r: i64)
    requires
        call_ensures(Header::correction_nanos, (&h,), r),
    ensures
        r * 65536 <= h.correction_subnanos < (r + 1) * 65536,
{
}

/// Messages whose instant matters are those of the first four codes.
pub proof fn law_event_messages(t: MessageType, r: bool)
    requires
        call_ensures(MessageType::is_event, (t,), r),
    ensures
        r <==> t == MessageType::Sync || t == MessageType::DelayReq || t == MessageType::PdelayReq || t
            == MessageType::PdelayResp,
{
}

/// What an error says of what could not be read.
pub proof fn law_errors_say_what_is_wrong(e: PtpError, r: String)
    requires
        call_ensures(PtpError::text, (&e,), r),
    ensures
        e matches PtpError::TooShort(n) ==> r@ == "packet is "@ + decimal(n as nat) + " bytes, shorter than the "@
            + decimal(34) + "-byte PTP header"@,
        e matches PtpError::BadVersion(n) ==> r@ == "PTP version is "@ + decimal(n as nat) + ", expected 2"@,
        e matches PtpError::TruncatedBody(t, n) ==> r@ == "message type 0x"@ + low_hex(t) + " carries a "@ + decimal(
            n as nat,
        ) + "-byte body, which is too short"@,
        e matches PtpError::BadTimestamp(n) ==> r@ == "nanoseconds field is "@ + decimal(n as nat)
            + ", which is not below one second"@,
{
}

/// Two times can be told apart in nanoseconds where their difference fits into 64 bits.
pub proof fn law_nearness_is_a_difference_that_fits(t: Timestamp, earlier: Timestamp, r: bool)
    requires
        call_ensures(Timestamp::is_near, (t, earlier), r),
    ensures
        r <==> -0x8000_0000_0000_0000 <= flat(t) - flat(earlier) <= 0x7fff_ffff_ffff_ffff,
{
}

/// PTP goes to 224.0.1.129, on port 319 for what is timed and on port 320 for the rest, one hop
/// far, and AES67 is on domain 0 unless it is told otherwise.
pub proof fn law_well_known_numbers()
    ensures
        PTP_PRIMARY@ == seq![224u8, 0, 1, 129],
        PORT_EVENT == 319,
        PORT_GENERAL == 320,
        PTP_TTL == 1,
        AES67_DEFAULT_DOMAIN == 0,
{
}

} // verus!
