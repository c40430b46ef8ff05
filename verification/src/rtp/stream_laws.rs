//! Where everything stands in an RTP packet, and what a sender and a receiver do with one.

use vstd::prelude::*;

use crate::bytes::{be_bytes, be_value, lemma_radix_values};
use crate::ptp::wire_laws::{four, signed_of, two};
use crate::rtp::addressing::{key_group, key_ssrc, mic_group, mic_ssrc, stream_group, Ipv4Addr};
use crate::rtp::jitter::{pushed, JitterBuffer, JitterStats, Push};
use crate::rtp::packet::{
    coded, decoded, frames_in_payload, l24_value, l24_wire, law_l24_round_trip, payload_range, quantised,
    quantised_by, restored, restored_by, sample_bytes, sample_coded, QuantiseSteps, RestoreSteps, RtpError, RtpHeader,
};
use crate::rtp::transport::{
    accepted_of, next_header, polled, received, received_each, received_with, sent, ReceiverView, SenderView,
    StreamReceiver, StreamSender,
};
use crate::sample::{exact, size, Sample};
use crate::text::decimal;

verus! {

proof fn lemma_two(b: Seq<u8>, i: int)
    requires
        0 <= i,
        i + 2 <= b.len(),
    ensures
        be_value(b.subrange(i, i + 2)) == two(b, i),
{
    reveal_with_fuel(be_value, 3);
    let s = b.subrange(i, i + 2);
    assert(s.drop_last().last() == b[i]);
}

proof fn lemma_four(b: Seq<u8>, i: int)
    requires
        0 <= i,
        i + 4 <= b.len(),
    ensures
        be_value(b.subrange(i, i + 4)) == four(b, i),
{
    reveal_with_fuel(be_value, 5);
    let s = b.subrange(i, i + 4);
    let t = s.drop_last();
    assert(t.last() == b[i + 2]);
    assert(t.drop_last().last() == b[i + 1]);
    assert(t.drop_last().drop_last().last() == b[i]);
}

/// Where the payload of a packet starts: after twelve bytes, four for each contributing source,
/// and the extension, whose own length is in its third and fourth byte.
pub open spec fn header_end(b: Seq<u8>) -> int {
    let sources = 12 + 4 * (b[0] % 16);
    if (b[0] / 16) % 2 == 1 {
        sources + 4 + 4 * two(b, sources + 2)
    } else {
        sources
    }
}

/// An RTP header is read from its first twelve bytes, and the payload starts behind whatever
/// else the header claims.
pub proof fn law_rtp_header_is_read_from_its_bytes(buf: &[u8], h: RtpHeader, at: usize)
    requires
        call_ensures(RtpHeader::parse, (buf,), Ok::<(RtpHeader, usize), RtpError>((h, at))),
    ensures
        buf@.len() >= 12,
        buf@[0] / 64 == 2,
        h.marker == (buf@[1] >= 128),
        h.payload_type == buf@[1] % 128,
        h.sequence == two(buf@, 2),
        h.timestamp == four(buf@, 4),
        h.ssrc == four(buf@, 8),
        at == header_end(buf@),
        at <= buf@.len(),
{
    lemma_two(buf@, 2);
    lemma_four(buf@, 4);
    lemma_four(buf@, 8);
    let at0 = 12 + 4 * (buf@[0] % 16);
    if (buf@[0] / 16) % 2 == 1 {
        lemma_two(buf@, at0 + 2);
    }
}

/// A buffer starts with an RTP header exactly if it is long enough for all that the header
/// claims, and of version two; and what is wrong with any other is said.
pub proof fn law_what_is_no_rtp_is_refused(buf: &[u8], r: Result<(RtpHeader, usize), RtpError>)
    requires
        call_ensures(RtpHeader::parse, (buf,), r),
    ensures
        ({
            let b = buf@;
            let sources = 12 + 4 * (b[0] % 16);
            let extended = (b[0] / 16) % 2 == 1;
            if b.len() < 12 {
                r == Err::<(RtpHeader, usize), RtpError>(RtpError::TooShort(b.len() as usize))
            } else if b[0] / 64 != 2 {
                r == Err::<(RtpHeader, usize), RtpError>(RtpError::BadVersion(b[0] / 64))
            } else if extended && b.len() < sources + 4 {
                r == Err::<(RtpHeader, usize), RtpError>(
                    RtpError::TruncatedHeader { claimed: (sources + 4) as usize, len: b.len() as usize },
                )
            } else if b.len() < header_end(b) {
                r == Err::<(RtpHeader, usize), RtpError>(
                    RtpError::TruncatedHeader { claimed: header_end(b) as usize, len: b.len() as usize },
                )
            } else {
                r is Ok
            }
        }),
{
    let b = buf@;
    let sources = 12 + 4 * (b[0] % 16);
    if b.len() >= sources + 4 {
        lemma_two(b, sources + 2);
    }
}

/// The payload runs from where it starts to the end of the packet, less the padding that the
/// last byte counts where there is any.
pub proof fn law_payload_is_what_the_packet_carries(buf: &[u8], start: usize, r: Result<&[u8], RtpError>)
    requires
        call_ensures(payload_range, (buf, start), r),
        buf@.len() > 0,
    ensures
        start > buf@.len() ==> r == Err::<&[u8], RtpError>(
            RtpError::TruncatedHeader { claimed: start, len: buf@.len() as usize },
        ),
        start <= buf@.len() ==> ({
            let b = buf@;
            let pad = if (b[0] / 32) % 2 == 1 {
                b[b.len() - 1] as int
            } else {
                0
            };
            let bad = (b[0] / 32) % 2 == 1 && (pad == 0 || start + pad > b.len());
            &&& r is Err <==> bad
            &&& bad && start + pad <= usize::MAX ==> r == Err::<&[u8], RtpError>(
                RtpError::TruncatedHeader { claimed: (start + pad) as usize, len: b.len() as usize },
            )
            &&& r matches Ok(p) ==> p@.len() == b.len() - start - pad && forall|i: int|
                0 <= i < p@.len() ==> #[trigger] p@[i] == b[start + i]
        }),
{
}

proof fn lemma_be_four(v: nat)
    requires
        v < 0x1_0000_0000,
    ensures
        be_bytes(v, 4).len() == 4,
        four(be_bytes(v, 4), 0) == v,
        v < 65536 ==> be_bytes(v, 2).len() == 2 && two(be_bytes(v, 2), 0) == v,
{
    reveal_with_fuel(be_bytes, 5);
    let b = be_bytes(v, 4);
    assert(b[3] == (v % 256) as u8);
    assert(b[2] == ((v / 256) % 256) as u8);
    assert(b[1] == ((v / 256 / 256) % 256) as u8);
    assert(b[0] == ((v / 256 / 256 / 256) % 256) as u8);
}

/// An RTP header on the wire: version two and nothing optional, the marker and the payload
/// type, the sequence number, the timestamp and the source.
pub proof fn law_rtp_header_bytes(h: RtpHeader)
    ensures
        h.wire().len() == 12,
        h.wire()[0] == 0x80,
        h.wire()[1] == h.payload_type % 128 + if h.marker {
            128int
        } else {
            0
        },
        two(h.wire(), 2) == h.sequence,
        four(h.wire(), 4) == h.timestamp,
        four(h.wire(), 8) == h.ssrc,
{
    lemma_be_four(h.sequence as nat);
    lemma_be_four(h.timestamp as nat);
    lemma_be_four(h.ssrc as nat);
    let (s, t, c) = (be_bytes(h.sequence as nat, 2), be_bytes(h.timestamp as nat, 4), be_bytes(h.ssrc as nat, 4));
    let w = h.wire();
    assert(w[2] == s[0] && w[3] == s[1]);
    assert(w[4] == t[0] && w[5] == t[1] && w[6] == t[2] && w[7] == t[3]);
    assert(w[8] == c[0] && w[9] == c[1] && w[10] == c[2] && w[11] == c[3]);
}

/// The number in three bytes, most significant first and with its sign.
pub open spec fn sample_number(b: Seq<u8>, i: int) -> int {
    signed_of(b[i] * 65536 + b[i + 1] * 256 + b[i + 2], 0x100_0000)
}

proof fn lemma_sample_number(b: Seq<u8>, i: int)
    requires
        0 <= i,
        3 * i + 3 <= b.len(),
    ensures
        l24_value(sample_bytes(b, i)) == sample_number(b, 3 * i),
{
    lemma_radix_values();
    reveal_with_fuel(be_value, 4);
    let s = sample_bytes(b, i);
    let t = s.drop_last();
    assert(t.last() == b[3 * i + 1]);
    assert(t.drop_last().last() == b[3 * i]);
}

/// In exact arithmetic a sample is coded as the whole part of 8388608 times itself, in three
/// bytes with the most significant first, and held to what 24 signed bits can say.
pub proof fn law_samples_are_coded_in_three_bytes<S: Sample>(
    val: spec_fn(S) -> real,
    samples: Seq<S>,
    bytes: Seq<u8>,
    i: int,
)
    requires
        exact(val),
        coded(samples, bytes),
        0 <= i < samples.len(),
    ensures
        bytes.len() == 3 * samples.len(),
        ({
            let n = sample_number(bytes, 3 * i);
            let x = val(samples[i]) * (8_388_608 as real);
            &&& x >= 8_388_607 as real ==> n == 8_388_607
            &&& x <= -8_388_608 as real ==> n == -8_388_608
            &&& 0 as real <= x < 8_388_607 as real ==> n as real <= x && x < (n + 1) as real
            &&& -8_388_608 as real <= x <= 0 as real ==> x <= n as real && (n - 1) as real <= x
        }),
{
    let s = samples[i];
    assert(sample_coded(s, sample_bytes(bytes, i)));
    let v = choose|v: int| #[trigger] quantised(s, v) && sample_bytes(bytes, i) == l24_wire(v);
    let w = choose|w: QuantiseSteps<S>| #[trigger] quantised_by(s, w, v);
    law_l24_round_trip(v);
    lemma_sample_number(bytes, i);
    let x = val(w.scaled);
    assert(x == val(s) * (8_388_608 as real));
    if size(x) < 0x4000_0000_0000_0000 as real {
        assert(size(x - w.whole as real) < 1 as real && size(w.whole as real) <= size(x));
    }
}

/// In exact arithmetic a coded sample stands for its number over 8388608.
pub proof fn law_samples_are_restored_from_three_bytes<S: Sample>(
    val: spec_fn(S) -> real,
    bytes: Seq<u8>,
    samples: Seq<S>,
    i: int,
)
    requires
        exact(val),
        decoded(bytes, samples),
        0 <= i < samples.len(),
    ensures
        bytes.len() == 3 * samples.len(),
        val(samples[i]) * (8_388_608 as real) == sample_number(bytes, 3 * i) as real,
{
    lemma_sample_number(bytes, i);
    let n = sample_number(bytes, 3 * i);
    assert(restored(l24_value(sample_bytes(bytes, i)), samples[i]));
    let w = choose|w: RestoreSteps<S>| #[trigger] restored_by(n, w, samples[i]);
    assert(val(samples[i]) == n as real / (8_388_608 as real));
}

/// A payload holds a third of its bytes as samples, shared evenly among its channels.
pub proof fn law_frames_are_shared_evenly(len: usize, channels: usize, r: Result<usize, RtpError>)
    requires
        call_ensures(frames_in_payload, (len, channels), r),
    ensures
        r matches Ok(frames) ==> frames * channels * 3 == len && channels > 0,
        len % 3 != 0 ==> r == Err::<usize, RtpError>(RtpError::PartialSample(len)),
        len % 3 == 0 && (channels == 0 || (len / 3) % channels != 0) ==> r == Err::<usize, RtpError>(
            RtpError::RaggedFrame { samples: len / 3, channels },
        ),
        len % 3 == 0 && channels > 0 && (len / 3) % channels == 0 ==> r is Ok,
{
    if let Ok(frames) = r {
        vstd::arithmetic::div_mod::lemma_fundamental_div_mod((len / 3) as int, channels as int);
        assert(frames * channels * 3 == len) by (nonlinear_arith)
            requires
                len == 3 * (channels * frames),
        ;
    }
}

// Senders.

/// A new sender counts from its source number, so that streams differ from each other.
pub proof fn law_new_sender_counts_from_its_source(block: usize, payload_type: u8, ssrc: u32, s: StreamSender)
    requires
        call_ensures(StreamSender::new, (block, payload_type, ssrc), s),
    ensures
        s@.ssrc == ssrc,
        s@.payload_type == payload_type,
        s@.block == block,
        s@.timestamp == ssrc,
        s@.sequence == ssrc as int % 65536,
{
}

/// Every packet sent counts the sequence on by one and the timestamp on by a block, each around
/// the end of its bits, and changes nothing else.
pub proof fn law_sending_counts_on(v: SenderView)
    ensures
        sent(v).sequence == (v.sequence + 1) % 65536,
        sent(v).timestamp == (v.timestamp + v.block) % 0x1_0000_0000,
        sent(v).ssrc == v.ssrc,
        sent(v).payload_type == v.payload_type,
        sent(v).block == v.block,
{
}

/// A packet is its sender's header and then the audio, three bytes to a sample.
pub proof fn law_packet_carries_header_and_audio<S: Sample>(
    val: spec_fn(S) -> real,
    s: StreamSender,
    samples: &[S],
    r: Vec<u8>,
)
    requires
        exact(val),
        call_ensures(StreamSender::packet::<S>, (&s, samples), r),
    ensures
        r@.len() == 12 + 3 * samples@.len(),
        r@[0] == 0x80,
        r@[1] == s@.payload_type % 128,
        two(r@, 2) == s@.sequence,
        four(r@, 4) == s@.timestamp,
        four(r@, 8) == s@.ssrc,
        coded(samples@, r@.skip(12)),
{
    let h = next_header(s@);
    law_rtp_header_bytes(h);
    let head = r@.subrange(0, 12);
    assert(head == h.wire());
    assert(forall|i: int| 0 <= i < 12 ==> r@[i] == #[trigger] head[i]);
}

// Receivers.

/// A receiver takes the first source that it hears, and from then on only that: what another
/// sends is counted and goes no further.
pub proof fn law_receiver_keeps_to_its_source<S: Sample>(
    v: ReceiverView<S>,
    datagram: &[u8],
    h: RtpHeader,
    at: usize,
    after: ReceiverView<S>,
    accepted: bool,
)
    requires
        call_ensures(RtpHeader::parse, (datagram,), Ok::<(RtpHeader, usize), RtpError>((h, at))),
        received(v, datagram@, after, accepted),
    ensures
        v.ssrc matches Some(known) && known != h.ssrc ==> {
            &&& after.ssrc == v.ssrc
            &&& after.jitter == v.jitter
            &&& !accepted
            &&& v.foreign < u64::MAX ==> after.foreign == v.foreign + 1
        },
        !(v.ssrc matches Some(known) && known != h.ssrc) ==> {
            &&& after.ssrc == Some(h.ssrc)
            &&& after.foreign == v.foreign
        },
{
    if v.ssrc is None || v.ssrc == Some(h.ssrc) {
        if crate::rtp::transport::carries(datagram@, v.jitter.block) {
            let samples = choose|samples: Seq<S>| #[trigger] received_with(v, datagram@, samples, after, accepted);
            assert(received_with(v, datagram@, samples, after, accepted));
        }
    }
}

/// What is no RTP changes nothing.
pub proof fn law_receiver_passes_over_noise<S: Sample>(
    v: ReceiverView<S>,
    datagram: &[u8],
    e: RtpError,
    after: ReceiverView<S>,
    accepted: bool,
)
    requires
        call_ensures(RtpHeader::parse, (datagram,), Err::<(RtpHeader, usize), RtpError>(e)),
        received(v, datagram@, after, accepted),
    ensures
        after == v,
        !accepted,
{
}

/// A packet of the receiver's own source and size goes into its buffer, at the packet's
/// timestamp and with the audio that its bytes spell; one of another size goes nowhere.
pub proof fn law_receiver_takes_its_audio<S: Sample>(
    val: spec_fn(S) -> real,
    v: ReceiverView<S>,
    datagram: &[u8],
    h: RtpHeader,
    at: usize,
    payload: &[u8],
    after: ReceiverView<S>,
    accepted: bool,
) -> (samples: Seq<S>)
    requires
        exact(val),
        call_ensures(RtpHeader::parse, (datagram,), Ok::<(RtpHeader, usize), RtpError>((h, at))),
        call_ensures(payload_range, (datagram, at), Ok::<&[u8], RtpError>(payload)),
        received(v, datagram@, after, accepted),
        v.ssrc is None || v.ssrc == Some(h.ssrc),
        at <= datagram@.len(),
    ensures
        payload@.len() != 3 * v.jitter.block ==> after.jitter == v.jitter && !accepted,
        payload@.len() == 3 * v.jitter.block ==> {
            &&& samples.len() == v.jitter.block
            &&& forall|i: int|
                0 <= i < samples.len() ==> val(#[trigger] samples[i]) * (8_388_608 as real) == sample_number(
                    payload@,
                    3 * i,
                ) as real
            &&& after.jitter == pushed(v.jitter, h.timestamp, samples).0
            &&& accepted == (pushed(v.jitter, h.timestamp, samples).1 == Push::Accepted)
        },
{
    if payload@.len() == 3 * v.jitter.block {
        let samples = choose|samples: Seq<S>| #[trigger] received_with(v, datagram@, samples, after, accepted);
        assert(received_with(v, datagram@, samples, after, accepted));
        assert forall|i: int| 0 <= i < samples.len() implies val(#[trigger] samples[i]) * (8_388_608 as real)
            == sample_number(payload@, 3 * i) as real by {
            law_samples_are_restored_from_three_bytes(val, payload@, samples, i);
        }
        samples
    } else {
        Seq::empty()
    }
}

/// Datagrams are taken one after the other, and as many are reported as were accepted: handing
/// over one more takes that one from where the others left off.
pub proof fn law_datagrams_are_taken_in_turn<S: Sample>(
    v: ReceiverView<S>,
    datagrams: Seq<Vec<u8>>,
    last: Vec<u8>,
    after: ReceiverView<S>,
    accepted: int,
)
    requires
        polled(v, datagrams.push(last), after, accepted),
    ensures
        exists|mid: ReceiverView<S>, n: int, taken: bool| #[trigger]
            polled(v, datagrams, mid, n) && #[trigger] received(mid, last@, after, taken) && accepted == n + if taken {
                1int
            } else {
                0
            },
{
    let all = datagrams.push(last);
    let (views, flags) = choose|views: Seq<ReceiverView<S>>, flags: Seq<bool>| #[trigger]
        received_each(all, views, flags) && flags.len() == all.len() && views[0] == v && views.last() == after
            && accepted == accepted_of(flags, flags.len() as int);
    let k = datagrams.len() as int;
    let (first, fewer) = (views.take(k + 1), flags.take(k));
    assert forall|i: int| 0 <= i < fewer.len() implies received(
        #[trigger] first[i],
        datagrams[i]@,
        first[i + 1],
        fewer[i],
    ) by {
        assert(received(views[i], all[i]@, views[i + 1], flags[i]));
    }
    lemma_accepted_prefix(flags, fewer, k);
    assert(received_each(datagrams, first, fewer));
    assert(polled(v, datagrams, views[k], accepted_of(fewer, k)));
    assert(received(views[k], all[k]@, views[k + 1], flags[k]));
    assert(accepted_of(flags, k + 1) == accepted_of(flags, k) + if flags[k] {
        1int
    } else {
        0
    });
}

proof fn lemma_accepted_prefix(a: Seq<bool>, b: Seq<bool>, n: int)
    requires
        n <= a.len(),
        n <= b.len(),
        forall|k: int| 0 <= k < n ==> a[k] == b[k],
    ensures
        accepted_of(a, n) == accepted_of(b, n),
    decreases n,
{
    if n > 0 {
        lemma_accepted_prefix(a, b, n - 1);
    }
}

/// Handing over nothing changes nothing.
pub proof fn law_nothing_received_changes_nothing<S: Sample>(v: ReceiverView<S>, after: ReceiverView<S>, accepted: int)
    requires
        polled(v, Seq::<Vec<u8>>::empty(), after, accepted),
    ensures
        after == v,
        accepted == 0,
{
}

/// A new receiver has heard nobody.
pub proof fn law_new_receiver_has_heard_nobody<S: Sample>(block: usize, depth: usize, r: StreamReceiver<S>)
    requires
        call_ensures(StreamReceiver::<S>::new, (block, depth), r),
    ensures
        r@.ssrc is None,
        r@.foreign == 0,
        !r@.jitter.started,
        r@.jitter.block == block,
        r@.jitter.target == (if depth == 0 {
            1
        } else {
            depth as int
        }),
{
}

// Addresses.

/// Key streams are numbered ten to an endpoint from 239.69.0.0 on, microphones one to an
/// endpoint from 239.69.128.0 on.
pub proof fn law_groups_are_numbered(e: usize, slot: u8, key: Ipv4Addr, mic: Ipv4Addr)
    requires
        call_ensures(key_group, (e, slot), key),
        call_ensures(mic_group, (e,), mic),
        e < 3276,
        slot < 10,
    ensures
        key.bits == 239 * 0x100_0000 + 69 * 0x1_0000 + 10 * e + slot,
        mic.bits == 239 * 0x100_0000 + 69 * 0x1_0000 + 128 * 0x100 + e,
{
}

/// A stream's source number says which endpoint and slot it is of.
pub proof fn law_sources_are_numbered(e: usize, slot: u8, key: u32, mic: u32)
    requires
        call_ensures(key_ssrc, (e, slot), key),
        call_ensures(mic_ssrc, (e,), mic),
        e < 4096,
        slot < 16,
    ensures
        key == 0x5157_0000 + 16 * e + slot,
        mic == 0x5158_0000 + e,
{
}

/// Streams allocated by index follow each other from the base.
pub proof fn law_stream_groups_follow_the_base(base: Ipv4Addr, index: usize, r: Ipv4Addr)
    requires
        call_ensures(stream_group, (base, index), r),
        base.bits + index <= u32::MAX,
    ensures
        r.bits == base.bits + index,
{
}

/// An address is its octets, most significant first; and multicast from 224 to 239.
pub proof fn law_addresses_are_octets(a: u8, b: u8, c: u8, d: u8, r: Ipv4Addr, m: bool, o: [u8; 4])
    requires
        call_ensures(Ipv4Addr::new, (a, b, c, d), r),
        call_ensures(Ipv4Addr::is_multicast, (r,), m),
        call_ensures(Ipv4Addr::octets, (r,), o),
    ensures
        m <==> 224 <= a <= 239,
        o@[0] == a,
        o@[1] == b,
        o@[2] == c,
        o@[3] == d,
{
}

/// What an error says of what could not be read.
pub proof fn law_errors_say_what_is_wrong(e: RtpError, r: String)
    requires
        call_ensures(RtpError::text, (&e,), r),
    ensures
        e matches RtpError::TooShort(n) ==> r@ == "packet is "@ + decimal(n as nat) + " bytes, shorter than the "@
            + decimal(12) + "-byte RTP header"@,
        e matches RtpError::BadVersion(n) ==> r@ == "RTP version is "@ + decimal(n as nat) + ", expected 2"@,
        e matches RtpError::TruncatedHeader { claimed, len } ==> r@ == "header claims "@ + decimal(claimed as nat)
            + " bytes of CSRC/extension but the packet is "@ + decimal(len as nat) + " bytes"@,
        e matches RtpError::PartialSample(n) ==> r@ == "payload is "@ + decimal(n as nat)
            + " bytes, not a whole number of L24 samples"@,
        e matches RtpError::RaggedFrame { samples, channels } ==> r@ == "payload holds "@ + decimal(samples as nat)
            + " samples, not divisible by "@ + decimal(channels as nat) + " channels"@,
{
}

/// What senders, receivers and their buffers report is what they hold.
pub proof fn law_streams_report_what_they_hold<S: Sample>(
    tx: StreamSender,
    ssrc: u32,
    timestamp: u32,
    rx: StreamReceiver<S>,
    foreign: u64,
    buffer: &JitterBuffer<S>,
    block: usize,
    stats: JitterStats,
    room: usize,
)
    requires
        call_ensures(StreamSender::ssrc, (&tx,), ssrc),
        call_ensures(StreamSender::next_timestamp, (&tx,), timestamp),
        call_ensures(StreamReceiver::<S>::foreign_packets, (&rx,), foreign),
        call_ensures(StreamReceiver::<S>::jitter, (&rx,), buffer),
        call_ensures(JitterBuffer::<S>::block_size, (buffer,), block),
        call_ensures(JitterBuffer::<S>::stats, (buffer,), stats),
        call_ensures(JitterBuffer::<S>::capacity, (buffer,), room),
    ensures
        ssrc == tx@.ssrc,
        timestamp == tx@.timestamp,
        foreign == rx@.foreign,
        block == rx@.jitter.block,
        stats == rx@.jitter.stats,
        room == rx@.jitter.queue.len(),
{
}

} // verus!
