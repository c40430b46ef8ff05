//! What the synthetic grandmaster sends, byte by byte, and when.

use vstd::prelude::*;

use crate::bytes::{be_bytes, lemma_radix_values};
use crate::ptp::message::{message_is, Message, MessageType, PortIdentity, PtpError, Timestamp};
use crate::ptp::servo_laws::flat;
use crate::ptp::testing::{
    announce_body, announce_made, header_for, now_with_offset, sync_made, Grandmaster, GrandmasterView,
};
use crate::ptp::wire_laws::{four, lemma_be_nothing, lemma_be_two, six, two};

verus! {

/// Whether bytes begin with the header of a message of this type, length, control, sequence id
/// and step, from this port in this domain, with an interval of a sixteenth of a second.
pub open spec fn headed(
    b: Seq<u8>,
    code: u8,
    length: int,
    domain: u8,
    two_step: bool,
    source: PortIdentity,
    seq: int,
    control: u8,
) -> bool {
    &&& b.len() == length
    &&& b[0] == code
    &&& b[1] == 2
    &&& two(b, 2) == length
    &&& b[4] == domain
    &&& b[5] == 0
    &&& b[6] == (if two_step {
        2u8
    } else {
        0u8
    })
    &&& b[7] == 8
    &&& forall|i: int| 8 <= i < 20 ==> #[trigger] b[i] == 0
    &&& forall|j: int| 0 <= j < 8 ==> #[trigger] b[20 + j] == source.clock.0@[j]
    &&& two(b, 28) == source.port
    &&& two(b, 30) == seq
    &&& b[32] == control
    &&& b[33] == 252
}

proof fn lemma_headed(
    source: PortIdentity,
    domain: u8,
    kind: MessageType,
    seq: u16,
    two_step: bool,
    length: u16,
    control: u8,
    body: Seq<u8>,
)
    requires
        body.len() + 34 == length,
    ensures
        headed(
            header_for(source, domain, kind, seq, two_step).wire(length, control) + body,
            kind.code(),
            length as int,
            domain,
            two_step,
            source,
            seq as int,
            control,
        ),
        header_for(source, domain, kind, seq, two_step).wire(length, control).len() == 34,
{
    lemma_be_two(length as nat);
    lemma_be_two(source.port as nat);
    lemma_be_two(seq as nat);
    lemma_be_nothing(8);
    lemma_be_nothing(4);
    let h = header_for(source, domain, kind, seq, two_step);
    let w = h.wire(length, control);
    let b = w + body;
    lemma_radix_values();
    assert(w.len() == 34);
    assert forall|i: int| 8 <= i < 20 implies #[trigger] b[i] == 0 by {
        if i < 16 {
            assert(w[i] == be_bytes(0, 8)[i - 8]);
        } else {
            assert(w[i] == be_bytes(0, 4)[i - 16]);
        }
    }
    assert forall|j: int| 0 <= j < 8 implies #[trigger] b[20 + j] == source.clock.0@[j] by {
        assert(w[20 + j] == source.clock@[j]);
    }
    assert(b[6] == h.flags.first() as u8);
    assert(b[7] == h.flags.second() as u8);
}

proof fn lemma_time_bytes(t: Timestamp)
    requires
        t.seconds < 0x1_0000_0000_0000,
    ensures
        t.wire().len() == 10,
        six(t.wire(), 0) == t.seconds,
        four(t.wire(), 6) == t.nanos,
{
    reveal_with_fuel(be_bytes, 7);
    let s = t.seconds as nat;
    let n = t.nanos as nat;
    let (a, c) = (be_bytes(s, 6), be_bytes(n, 4));
    assert(a[5] == (s % 256) as u8);
    assert(a[4] == ((s / 256) % 256) as u8);
    assert(a[3] == ((s / 256 / 256) % 256) as u8);
    assert(a[2] == ((s / 256 / 256 / 256) % 256) as u8);
    assert(a[1] == ((s / 256 / 256 / 256 / 256) % 256) as u8);
    assert(a[0] == ((s / 256 / 256 / 256 / 256 / 256) % 256) as u8);
    assert(c[3] == (n % 256) as u8);
    assert(c[2] == ((n / 256) % 256) as u8);
    assert(c[1] == ((n / 256 / 256) % 256) as u8);
    assert(c[0] == ((n / 256 / 256 / 256) % 256) as u8);
    let w = t.wire();
    assert(w[0] == a[0] && w[1] == a[1] && w[2] == a[2] && w[3] == a[3] && w[4] == a[4] && w[5] == a[5]);
    assert(w[6] == c[0] && w[7] == c[1] && w[8] == c[2] && w[9] == c[3]);
}

/// A grandmaster announces itself at once and then a tenth of a second or more after each time,
/// with the sequence id of its last Sync: 37 s of UTC offset, priorities 128 and 128, class 6,
/// accuracy 0x21, variance 0x436A, its own identity, no steps removed, by GPS. Nothing else of it
/// changes.
pub proof fn law_grandmaster_announces_itself(
    v: GrandmasterView,
    now: u64,
    packet: Option<Seq<u8>>,
    after: GrandmasterView,
)
    requires
        announce_made(v, now, packet, after),
    ensures
        packet is Some <==> (v.last_announce is None || now >= v.last_announce->0 + 100_000_000),
        packet is None ==> after == v,
        packet matches Some(b) ==> {
            &&& after == (GrandmasterView { last_announce: Some(now), ..v })
            &&& headed(b, 0xB, 64, v.domain, false, v.identity, v.seq as int, 5)
            &&& forall|i: int| 34 <= i < 44 ==> #[trigger] b[i] == 0
            &&& two(b, 44) == 37
            &&& b[46] == 0
            &&& b[47] == 128
            &&& b[48] == 6
            &&& b[49] == 0x21
            &&& two(b, 50) == 0x436A
            &&& b[52] == 128
            &&& forall|j: int| 0 <= j < 8 ==> #[trigger] b[53 + j] == v.identity.clock.0@[j]
            &&& two(b, 61) == 0
            &&& b[63] == 0x20
        },
{
    if let Some(b) = packet {
        let body = announce_body(v.identity);
        lemma_be_nothing(8);
        lemma_be_nothing(2);
        lemma_be_two(37);
        lemma_be_two(0x436A);
        assert(body.len() == 30);
        lemma_headed(v.identity, v.domain, MessageType::Announce, v.seq, false, 64, 5, body);
        assert forall|i: int| 34 <= i < 44 implies #[trigger] b[i] == 0 by {
            assert(b[i] == body[i - 34]);
            if i < 42 {
                assert(body[i - 34] == be_bytes(0, 8)[i - 34]);
            } else {
                assert(body[i - 34] == be_bytes(0, 2)[i - 42]);
            }
        }
        assert(b[44] == body[10] && b[45] == body[11] && b[46] == body[12] && b[47] == body[13] && b[48] == body[14]);
        assert(b[49] == body[15] && b[50] == body[16] && b[51] == body[17] && b[52] == body[18]);
        assert forall|j: int| 0 <= j < 8 implies #[trigger] b[53 + j] == v.identity.clock.0@[j] by {
            assert(b[53 + j] == body[19 + j]);
            assert(body[19 + j] == v.identity.clock@[j]);
        }
        assert(b[61] == body[27] && b[62] == body[28] && b[63] == body[29]);
    }
}

/// A grandmaster sends a Sync a fiftieth of a second or more after each, under the next sequence
/// id, in two steps and with no time in it; nothing else of it changes.
pub proof fn law_grandmaster_syncs(v: GrandmasterView, now: u64, packet: Option<Seq<u8>>, after: GrandmasterView)
    requires
        sync_made(v, now, packet, after),
    ensures
        packet is Some <==> now >= v.last_sync + 20_000_000,
        packet is None ==> after == v,
        packet matches Some(b) ==> {
            &&& after.seq == (v.seq + 1) % 65536
            &&& after == (GrandmasterView { seq: after.seq, last_sync: now, ..v })
            &&& headed(b, 0, 44, v.domain, true, v.identity, after.seq as int, 0)
            &&& forall|i: int| 34 <= i < 44 ==> #[trigger] b[i] == 0
        },
{
    if let Some(b) = packet {
        let body = (Timestamp { seconds: 0, nanos: 0 }).wire();
        lemma_be_nothing(6);
        lemma_be_nothing(4);
        assert(body.len() == 10);
        lemma_headed(v.identity, v.domain, MessageType::Sync, after.seq, true, 44, 0, body);
        assert forall|i: int| 34 <= i < 44 implies #[trigger] b[i] == 0 by {
            assert(b[i] == body[i - 34]);
            if i < 40 {
                assert(body[i - 34] == be_bytes(0, 6)[i - 34]);
            } else {
                assert(body[i - 34] == be_bytes(0, 4)[i - 40]);
            }
        }
    }
}

/// A Follow_Up carries the sequence id of the last Sync and the time that it left.
pub proof fn law_follow_up_tells_when_its_sync_left(g: Grandmaster, t1: Timestamp, r: [u8; 44])
    requires
        call_ensures(Grandmaster::follow_up, (&g, t1), r),
        t1.seconds < 0x1_0000_0000_0000,
    ensures
        headed(r@, 8, 44, g@.domain, false, g@.identity, g@.seq as int, 2),
        six(r@, 34) == t1.seconds,
        four(r@, 40) == t1.nanos,
{
    let body = t1.wire();
    lemma_time_bytes(t1);
    lemma_headed(g@.identity, g@.domain, MessageType::FollowUp, g@.seq, false, 44, 2, body);
    assert(forall|i: int| 0 <= i < 10 ==> r@[34 + i] == #[trigger] body[i]);
    assert(r@[34] == body[0] && r@[35] == body[1] && r@[36] == body[2] && r@[37] == body[3] && r@[38] == body[4]);
    assert(r@[39] == body[5] && r@[40] == body[6] && r@[41] == body[7] && r@[42] == body[8] && r@[43] == body[9]);
}

/// All readings of a datagram agree on what an answer rests on.
proof fn lemma_one_reading(b: Seq<u8>, m: Message)
    requires
        message_is(m, b),
    ensures
        forall|n: Message| #[trigger]
            message_is(n, b) ==> n.header.message_type == m.header.message_type && n.header.domain == m.header.domain
                && n.header.sequence_id == m.header.sequence_id && n.header.source.wire() == m.header.source.wire(),
{
}

/// A Delay_Req on the grandmaster's domain is answered under its own sequence id with the time
/// that it arrived and whose it was; nothing else is answered.
pub proof fn law_delay_requests_are_answered(
    g: Grandmaster,
    datagram: &[u8],
    t4: Timestamp,
    parsed: Result<Message, PtpError>,
    r: Option<[u8; 54]>,
)
    requires
        call_ensures(Grandmaster::answer, (&g, datagram, t4), r),
        call_ensures(Message::parse, (datagram,), parsed),
        t4.seconds < 0x1_0000_0000_0000,
    ensures
        parsed is Err ==> r is None,
        parsed matches Ok(m) ==> {
            &&& r is Some <==> m.header.message_type is DelayReq && m.header.domain == g@.domain
            &&& r is Some ==> {
                let b = (r->0)@;
                &&& headed(b, 9, 54, g@.domain, false, g@.identity, m.header.sequence_id as int, 3)
                &&& six(b, 34) == t4.seconds
                &&& four(b, 40) == t4.nanos
                &&& forall|j: int| 0 <= j < 8 ==> #[trigger] b[44 + j] == m.header.source.clock.0@[j]
                &&& two(b, 52) == m.header.source.port
            }
        },
{
    if let Ok(m) = parsed {
        lemma_one_reading(datagram@, m);
        if let Some(p) = r {
            let b = p@;
            let source = m.header.source;
            let time = t4.wire();
            let body = time + source.wire();
            lemma_time_bytes(t4);
            lemma_be_two(source.port as nat);
            let h = header_for(g@.identity, g@.domain, MessageType::DelayResp, m.header.sequence_id, false);
            lemma_headed(g@.identity, g@.domain, MessageType::DelayResp, m.header.sequence_id, false, 54, 3, body);
            assert(b =~= h.wire(54, 3) + body);
            assert(b[34] == time[0] && b[35] == time[1] && b[36] == time[2] && b[37] == time[3] && b[38] == time[4]);
            assert(b[39] == time[5] && b[40] == time[6] && b[41] == time[7] && b[42] == time[8] && b[43] == time[9]);
            assert forall|j: int| 0 <= j < 8 implies #[trigger] b[44 + j] == source.clock.0@[j] by {
                assert(b[44 + j] == body[10 + j]);
                assert(body[10 + j] == source.wire()[j]);
            }
            assert(b[52] == source.wire()[8] && b[53] == source.wire()[9]);
        }
    }
}

/// A grandmaster's time is local time and its offset.
pub proof fn law_grandmaster_time_is_offset_local_time(g: Grandmaster, total: u128, t: Timestamp, offset: i64, u: Timestamp)
    requires
        call_ensures(Grandmaster::now, (&g, total), t),
        call_ensures(now_with_offset, (total, offset), u),
        0 <= total + g@.offset < 0x1_0000_0000_0000_0000 * 1_000_000_000,
        0 <= total + offset < 0x1_0000_0000_0000_0000 * 1_000_000_000,
    ensures
        flat(t) == total + g@.offset,
        t.nanos < 1_000_000_000,
        flat(u) == total + offset,
{
}

/// A new grandmaster is 02-AA-BB-FF-FE-CC-DD-EE on port 1, at its offset, before its first Sync.
pub proof fn law_new_grandmaster(domain: u8, offset: i64, now: u64, g: Grandmaster)
    requires
        call_ensures(Grandmaster::new, (domain, offset, now), g),
    ensures
        g@.domain == domain,
        g@.offset == offset,
        g@.identity.clock.0@ == seq![0x02u8, 0xAA, 0xBB, 0xFF, 0xFE, 0xCC, 0xDD, 0xEE],
        g@.identity.port == 1,
        g@.seq == 0,
        g@.last_sync == now,
        g@.last_announce is None,
{
    assert(g@.identity.clock@ == g@.identity.clock.0@);
}

} // verus!
