//! One stream in, one stream out: what a sender puts in its datagrams and what a receiver
//! makes of those that arrive. The sockets themselves belong to the program around it.

use vstd::prelude::*;

use crate::ptp::servo::counted;
use crate::rtp::jitter::{
    jitter_fits, jitter_fresh, pulled, pushed, timestamp_after, JitterBuffer, JitterView, Pull, Push,
};
use crate::rtp::packet::{
    decode_l24, decoded, l24_value, l24_wire, law_l24_round_trip, law_rtp_header_round_trip, packet_is,
    payload_at, payload_end, payload_error, payload_range, quantised, restored, rtp_error, rtp_header,
    sample_bytes, sample_coded, write_packet, RtpHeader, L24_BYTES, RTP_HEADER_LEN,
};
use crate::engine::kernels::silent_vec;
use crate::sample::Sample;

verus! {

/// Sends one stream: the RTP header bookkeeping.
pub struct StreamSender {
    payload_type: u8,
    ssrc: u32,
    sequence: u16,
    timestamp: u32,
    block: usize,
}

/// A sender as a mathematical value.
pub struct SenderView {
    pub payload_type: u8,
    pub ssrc: u32,
    /// Sequence number of the next packet.
    pub sequence: u16,
    /// Timestamp of the next packet.
    pub timestamp: u32,
    pub block: int,
}

impl View for StreamSender {
    type V = SenderView;

    closed spec fn view(&self) -> SenderView {
        SenderView {
            payload_type: self.payload_type,
            ssrc: self.ssrc,
            sequence: self.sequence,
            timestamp: self.timestamp,
            block: self.block as int,
        }
    }
}

/// Whether a packet of this many samples can be addressed.
pub open spec fn packet_fits(block: int) -> bool {
    RTP_HEADER_LEN + block * L24_BYTES <= usize::MAX
}

/// The header of the next packet.
pub open spec fn next_header(v: SenderView) -> RtpHeader {
    RtpHeader {
        marker: false,
        payload_type: v.payload_type,
        sequence: v.sequence,
        timestamp: v.timestamp,
        ssrc: v.ssrc,
    }
}

/// A sender after its packet went out: the sequence counts packets, the timestamp samples.
pub open spec fn sent(v: SenderView) -> SenderView {
    SenderView {
        sequence: ((v.sequence + 1) % 0x1_0000) as u16,
        timestamp: timestamp_after(v.timestamp as int, v.block) as u32,
        ..v
    }
}

impl StreamSender {
    /// The invariant: a packet can be addressed.
    pub closed spec fn wf(&self) -> bool {
        packet_fits(self.block as int)
    }

    /// A sender of `block` samples per packet. The counters start from the SSRC, so streams
    /// differ from each other.
    pub fn new(block: usize, payload_type: u8, ssrc: u32) -> (r: Self)
        requires
            packet_fits(block as int),
        ensures
            r.wf(),
            r@ == (SenderView {
                payload_type,
                ssrc,
                sequence: (ssrc % 0x1_0000) as u16,
                timestamp: ssrc,
                block: block as int,
            }),
    {
        StreamSender { payload_type, ssrc, sequence: (ssrc % 0x1_0000) as u16, timestamp: ssrc, block }
    }

    pub fn ssrc(&self) -> (r: u32)
        ensures
            r == self@.ssrc,
    {
        self.ssrc
    }

    /// The timestamp the next packet will carry.
    pub fn next_timestamp(&self) -> (r: u32)
        ensures
            r == self@.timestamp,
    {
        self.timestamp
    }

    /// Lets the next packet carry a timestamp of the caller's.
    pub fn stamp(&mut self, timestamp: u32)
        requires
            old(self).wf(),
        ensures
            final(self).wf(),
            final(self)@ == (SenderView { timestamp, ..old(self)@ }),
    {
        self.timestamp = timestamp;
    }

    /// The next packet.
    pub fn packet<S: Sample>(&self, samples: &[S]) -> (r: Vec<u8>)
        requires
            self.wf(),
            samples@.len() == self@.block,
        ensures
            packet_is(next_header(self@), samples@, r@),
    {
        let header = RtpHeader::new(self.payload_type, self.sequence, self.timestamp, self.ssrc);
        let total: usize = RTP_HEADER_LEN + samples.len() * L24_BYTES;
        let mut out: Vec<u8> = vec![0u8; total];
        let n: usize = write_packet(&header, samples, out.as_mut_slice());
        assert(out@.take(n as int) =~= out@);
        out
    }

    /// To be called once the packet has gone out.
    pub fn advance(&mut self)
        requires
            old(self).wf(),
        ensures
            final(self).wf(),
            final(self)@ == sent(old(self)@),
    {
        self.sequence = self.sequence.wrapping_add(1);
        let low: u32 = (self.block as u64 % 0x1_0000_0000) as u32;
        proof {
            vstd::arithmetic::div_mod::lemma_add_mod_noop_right(
                self.timestamp as int,
                self.block as int,
                0x1_0000_0000,
            );
        }
        self.timestamp = self.timestamp.wrapping_add(low);
    }
}

/// Receives one stream into a jitter buffer.
pub struct StreamReceiver<S> {
    jitter: JitterBuffer<S>,
    ssrc: Option<u32>,
    foreign_packets: u64,
}

/// A receiver as a mathematical value.
pub struct ReceiverView<S> {
    pub jitter: JitterView<S>,
    /// Locked to the first SSRC seen, so that a stray sender cannot interleave its audio.
    pub ssrc: Option<u32>,
    pub foreign: u64,
}

impl<S: Sample> View for StreamReceiver<S> {
    type V = ReceiverView<S>;

    closed spec fn view(&self) -> ReceiverView<S> {
        ReceiverView { jitter: self.jitter@, ssrc: self.ssrc, foreign: self.foreign_packets }
    }
}

/// Whether a datagram holds a packet of the expected size, past its header.
pub open spec fn carries(datagram: Seq<u8>, block: int) -> bool {
    &&& payload_error(datagram, payload_at(datagram)) is None
    &&& payload_end(datagram) - payload_at(datagram) == block * L24_BYTES
}

/// The payload of a datagram.
pub open spec fn payload_of(datagram: Seq<u8>) -> Seq<u8> {
    datagram.subrange(payload_at(datagram), payload_end(datagram))
}

pub open spec fn received_with<S: Sample>(
    v: ReceiverView<S>,
    datagram: Seq<u8>,
    samples: Seq<S>,
    after: ReceiverView<S>,
    accepted: bool,
) -> bool {
    let r = pushed(v.jitter, rtp_header(datagram).timestamp, samples);
    &&& decoded(payload_of(datagram), samples)
    &&& after == (ReceiverView { jitter: r.0, ssrc: Some(rtp_header(datagram).ssrc), foreign: v.foreign })
    &&& accepted == (r.1 == Push::Accepted)
}

/// What a receiver makes of a datagram: what is no RTP is passed over, what another source
/// sent is counted, what has another size is passed over, and the rest is decoded and
/// handed to the buffer.
pub open spec fn received<S: Sample>(
    v: ReceiverView<S>,
    datagram: Seq<u8>,
    after: ReceiverView<S>,
    accepted: bool,
) -> bool {
    if rtp_error(datagram) is Some {
        after == v && !accepted
    } else if v.ssrc is Some && v.ssrc != Some(rtp_header(datagram).ssrc) {
        after == (ReceiverView { foreign: counted(v.foreign), ..v }) && !accepted
    } else if !carries(datagram, v.jitter.block) {
        after == (ReceiverView { ssrc: Some(rtp_header(datagram).ssrc), ..v }) && !accepted
    } else {
        exists|samples: Seq<S>| #[trigger] received_with(v, datagram, samples, after, accepted)
    }
}

/// How many of the first `n` datagrams were accepted.
pub open spec fn accepted_of(flags: Seq<bool>, n: int) -> int
    decreases n,
{
    if n <= 0 {
        0
    } else {
        accepted_of(flags, n - 1) + if flags[n - 1] {
            1int
        } else {
            0
        }
    }
}

/// The datagrams taken one after the other: `views[i]` is the receiver before datagram `i`.
pub open spec fn received_each<S: Sample>(
    datagrams: Seq<Vec<u8>>,
    views: Seq<ReceiverView<S>>,
    flags: Seq<bool>,
) -> bool {
    &&& views.len() == flags.len() + 1
    &&& flags.len() <= datagrams.len()
    &&& forall|i: int|
        0 <= i < flags.len() ==> received(#[trigger] views[i], datagrams[i]@, views[i + 1], flags[i])
}

/// A receiver that has been handed a run of datagrams.
pub open spec fn polled<S: Sample>(
    v: ReceiverView<S>,
    datagrams: Seq<Vec<u8>>,
    after: ReceiverView<S>,
    accepted: int,
) -> bool {
    exists|views: Seq<ReceiverView<S>>, flags: Seq<bool>| #[trigger]
        received_each(datagrams, views, flags) && flags.len() == datagrams.len() && views[0] == v && views.last()
            == after && accepted == accepted_of(flags, flags.len() as int)
}

impl<S: Sample> StreamReceiver<S> {
    pub closed spec fn wf(&self) -> bool {
        self.jitter.wf()
    }

    /// What the invariant says of the mathematical value.
    pub proof fn lemma_wf(&self)
        requires
            self.wf(),
        ensures
            self@.jitter.target >= 1,
            self@.jitter.last_good.len() == self@.jitter.block,
            jitter_fits(self@.jitter.block, self@.jitter.target),
    {
        self.jitter.lemma_wf();
    }

    pub fn new(block: usize, target_depth: usize) -> (r: Self)
        requires
            jitter_fits(block as int, target_depth as int),
        ensures
            r.wf(),
            jitter_fresh(r@.jitter, block as int, target_depth as int),
            r@.ssrc is None,
            r@.foreign == 0,
    {
        StreamReceiver { jitter: JitterBuffer::new(block, target_depth), ssrc: None, foreign_packets: 0 }
    }

    pub fn jitter(&self) -> (r: &JitterBuffer<S>)
        requires
            self.wf(),
        ensures
            r@ == self@.jitter,
            r.wf(),
    {
        &self.jitter
    }

    pub fn foreign_packets(&self) -> (r: u64)
        ensures
            r == self@.foreign,
    {
        self.foreign_packets
    }

    /// Takes one datagram. Returns whether its audio was accepted.
    pub fn receive(&mut self, datagram: &[u8]) -> (accepted: bool)
        requires
            old(self).wf(),
        ensures
            final(self).wf(),
            received(old(self)@, datagram@, final(self)@, accepted),
            final(self)@.jitter.block == old(self)@.jitter.block,
    {
        let ghost v = self@;
        let (header, at) = match RtpHeader::parse(datagram) {
            Ok(parsed) => parsed,
            Err(_) => {
                return false;
            },
        };
        match self.ssrc {
            None => {
                self.ssrc = Some(header.ssrc);
            },
            Some(known) => {
                if known != header.ssrc {
                    self.foreign_packets = self.foreign_packets.wrapping_add(1);
                    return false;
                }
            },
        }
        let payload = match payload_range(datagram, at) {
            Ok(payload) => payload,
            Err(_) => {
                return false;
            },
        };
        let block: usize = self.jitter.block_size();
        proof {
            self.jitter.lemma_wf();
            let cap = self.jitter@.queue.len() as int;
            let b = block as int;
            assert(b * 3 <= cap * b) by (nonlinear_arith)
                requires
                    cap >= 3,
                    b >= 0,
            ;
        }
        if payload.len() != block * L24_BYTES {
            return false;
        }
        let mut samples: Vec<S> = silent_vec(block);
        match decode_l24(payload, samples.as_mut_slice()) {
            Ok(()) => {},
            Err(_) => {
                return false;
            },
        }
        let ghost decoded_samples = samples@;
        let r = self.jitter.push(header.timestamp, samples.as_slice());
        proof {
            assert(payload@ == payload_of(datagram@));
            assert(received_with(v, datagram@, decoded_samples, self@, r == Push::Accepted));
        }
        r == Push::Accepted
    }

    /// Takes everything that was waiting. Returns how many packets were accepted.
    pub fn poll(&mut self, datagrams: &Vec<Vec<u8>>) -> (accepted: usize)
        requires
            old(self).wf(),
        ensures
            final(self).wf(),
            polled(old(self)@, datagrams@, final(self)@, accepted as int),
            final(self)@.jitter.block == old(self)@.jitter.block,
    {
        let mut accepted: usize = 0;
        let mut i: usize = 0;
        let ghost mut views = seq![self@];
        let ghost mut flags: Seq<bool> = Seq::empty();
        while i < datagrams.len()
            invariant
                self.wf(),
                i <= datagrams@.len(),
                accepted <= i,
                flags.len() == i,
                received_each(datagrams@, views, flags),
                views[0] == old(self)@,
                views.last() == self@,
                accepted == accepted_of(flags, flags.len() as int),
                self@.jitter.block == old(self)@.jitter.block,
            decreases datagrams@.len() - i,
        {
            let ghost before = self@;
            let taken = self.receive(datagrams[i].as_slice());
            proof {
                let more_views = views.push(self@);
                let more_flags = flags.push(taken);
                assert forall|k: int| 0 <= k < more_flags.len() implies received(
                    #[trigger] more_views[k],
                    datagrams@[k]@,
                    more_views[k + 1],
                    more_flags[k],
                ) by {
                    if k < i {
                        assert(received(views[k], datagrams@[k]@, views[k + 1], flags[k]));
                    } else {
                        assert(more_views[k] == before);
                    }
                }
                lemma_accepted_agree(flags, more_flags, flags.len() as int);
                views = more_views;
                flags = more_flags;
            }
            if taken {
                accepted += 1;
            }
            i += 1;
        }
        accepted
    }

    /// Take the next aligned block.
    pub fn pull(&mut self, out: &mut [S]) -> (r: Pull)
        requires
            old(self).wf(),
            old(out)@.len() == old(self)@.jitter.block,
        ensures
            final(self).wf(),
            pulled(old(self)@.jitter, final(out)@, r, final(self)@.jitter),
            final(self)@.ssrc == old(self)@.ssrc,
            final(self)@.foreign == old(self)@.foreign,
            final(self)@.jitter.block == old(self)@.jitter.block,
            final(out)@.len() == old(out)@.len(),
    {
        self.jitter.pull(out)
    }
}

proof fn lemma_accepted_agree(a: Seq<bool>, b: Seq<bool>, n: int)
    requires
        n <= a.len(),
        n <= b.len(),
        forall|k: int| 0 <= k < n ==> a[k] == b[k],
    ensures
        accepted_of(a, n) == accepted_of(b, n),
    decreases n,
{
    if n > 0 {
        lemma_accepted_agree(a, b, n - 1);
    }
}

/// A receiver locked to one source keeps what another one sends out of its buffer.
pub proof fn law_stray_sender_injects_nothing<S: Sample>(
    v: ReceiverView<S>,
    datagram: Seq<u8>,
    after: ReceiverView<S>,
    accepted: bool,
)
    requires
        received(v, datagram, after, accepted),
        v.ssrc is Some,
        rtp_error(datagram) is None,
        rtp_header(datagram).ssrc != v.ssrc->0,
    ensures
        after.jitter == v.jitter,
        after.ssrc == v.ssrc,
        after.foreign == counted(v.foreign),
        !accepted,
{
}

/// A packet with another number of samples never reaches the buffer.
pub proof fn law_wrong_geometry_is_dropped<S: Sample>(
    v: ReceiverView<S>,
    datagram: Seq<u8>,
    after: ReceiverView<S>,
    accepted: bool,
)
    requires
        received(v, datagram, after, accepted),
        rtp_error(datagram) is None,
        !carries(datagram, v.jitter.block),
    ensures
        after.jitter == v.jitter,
        !accepted,
{
}

/// Each sample coded and restored again.
pub open spec fn through_the_wire<S: Sample>(x: S, y: S) -> bool {
    exists|n: int| #[trigger] quantised(x, n) && restored(n, y)
}

/// What a sender puts in a packet is what a receiver of the same geometry hands its buffer:
/// the sender's timestamp, and each sample as 24 bits carry it.
pub proof fn law_audio_survives_the_wire<S: Sample>(
    s: SenderView,
    samples: Seq<S>,
    datagram: Seq<u8>,
    v: ReceiverView<S>,
    after: ReceiverView<S>,
    accepted: bool,
) -> (heard: Seq<S>)
    requires
        s.payload_type < 128,
        s.block == samples.len(),
        packet_is(next_header(s), samples, datagram),
        received(v, datagram, after, accepted),
        v.jitter.block == s.block,
        v.ssrc is None || v.ssrc == Some(s.ssrc),
    ensures
        after.ssrc == Some(s.ssrc),
        after.jitter == pushed(v.jitter, s.timestamp, heard).0,
        accepted == (pushed(v.jitter, s.timestamp, heard).1 == Push::Accepted),
        heard.len() == samples.len(),
        forall|i: int| 0 <= i < samples.len() ==> through_the_wire(samples[i], #[trigger] heard[i]),
{
    let header = next_header(s);
    let payload = datagram.skip(RTP_HEADER_LEN as int);
    assert(datagram =~= header.wire() + payload);
    law_rtp_header_round_trip(header, payload);
    assert(payload_of(datagram) =~= payload);
    assert(carries(datagram, s.block));
    let heard = choose|x: Seq<S>| #[trigger] received_with(v, datagram, x, after, accepted);
    assert forall|i: int| 0 <= i < samples.len() implies through_the_wire(samples[i], #[trigger] heard[i]) by {
        assert(sample_coded(samples[i], sample_bytes(payload, i)));
        let n = choose|n: int| #[trigger] quantised(samples[i], n) && sample_bytes(payload, i) == l24_wire(n);
        law_l24_round_trip(n);
        assert(restored(l24_value(sample_bytes(payload, i)), heard[i]));
        assert(quantised(samples[i], n) && restored(n, heard[i]));
    }
    heard
}

} // verus!
