//! RTP header and L24 payload coding, per RFC 3550 and AES67.

use vstd::prelude::*;
use vstd::string::StringExecFns;

use crate::bytes::{
    be_bytes, be_value, lemma_be_bytes_len, lemma_be_round_trip, lemma_radix_values, overwrite, push_be,
    read_be, signed, unsigned,
};
use crate::sample::{exact, product_is, quotient_is, size, truncated_is, whole_is, Sample, EXACT_LIMIT};
use crate::text::{decimal, push_decimal};

verus! {

/// Fixed RTP header length.
pub const RTP_HEADER_LEN: usize = 12;

/// Bytes per sample for L24.
pub const L24_BYTES: usize = 3;

/// Full scale for 24-bit signed audio, 2^23.
pub const SCALE_24: i64 = 8_388_608;

#[derive(Clone, Copy, Debug, PartialEq, Eq, Structural)]
pub enum RtpError {
    /// The packet is this long, shorter than the header.
    TooShort(usize),
    /// The RTP version is this, and not 2.
    BadVersion(u8),
    /// The header claims more than the packet holds.
    TruncatedHeader { claimed: usize, len: usize },
    /// The payload is not a whole number of L24 samples.
    PartialSample(usize),
    /// The samples are not divisible by the channels.
    RaggedFrame { samples: usize, channels: usize },
}

/// What an error says.
pub open spec fn rtp_error_text(e: RtpError) -> Seq<char> {
    match e {
        RtpError::TooShort(n) => "packet is "@ + decimal(n as nat) + " bytes, shorter than the "@ + decimal(
            RTP_HEADER_LEN as nat,
        ) + "-byte RTP header"@,
        RtpError::BadVersion(v) => "RTP version is "@ + decimal(v as nat) + ", expected 2"@,
        RtpError::TruncatedHeader { claimed, len } => "header claims "@ + decimal(claimed as nat)
            + " bytes of CSRC/extension but the packet is "@ + decimal(len as nat) + " bytes"@,
        RtpError::PartialSample(n) => "payload is "@ + decimal(n as nat)
            + " bytes, not a whole number of L24 samples"@,
        RtpError::RaggedFrame { samples, channels } => "payload holds "@ + decimal(samples as nat)
            + " samples, not divisible by "@ + decimal(channels as nat) + " channels"@,
    }
}

impl RtpError {
    /// What the error says.
    pub fn text(&self) -> (r: String)
        ensures
            r@ == rtp_error_text(*self),
    {
        match self {
            RtpError::TooShort(n) => {
                let mut out = String::from_str("packet is ");
                push_decimal(&mut out, *n as u64);
                out.append(" bytes, shorter than the ");
                push_decimal(&mut out, RTP_HEADER_LEN as u64);
                out.append("-byte RTP header");
                out
            },
            RtpError::BadVersion(v) => {
                let mut out = String::from_str("RTP version is ");
                push_decimal(&mut out, *v as u64);
                out.append(", expected 2");
                out
            },
            RtpError::TruncatedHeader { claimed, len } => {
                let mut out = String::from_str("header claims ");
                push_decimal(&mut out, *claimed as u64);
                out.append(" bytes of CSRC/extension but the packet is ");
                push_decimal(&mut out, *len as u64);
                out.append(" bytes");
                out
            },
            RtpError::PartialSample(n) => {
                let mut out = String::from_str("payload is ");
                push_decimal(&mut out, *n as u64);
                out.append(" bytes, not a whole number of L24 samples");
                out
            },
            RtpError::RaggedFrame { samples, channels } => {
                let mut out = String::from_str("payload holds ");
                push_decimal(&mut out, *samples as u64);
                out.append(" samples, not divisible by ");
                push_decimal(&mut out, *channels as u64);
                out.append(" channels");
                out
            },
        }
    }
}

/// An RTP header. The timestamp is in media-clock units.
#[derive(Clone, Copy, Debug, PartialEq, Eq, Structural)]
pub struct RtpHeader {
    pub marker: bool,
    pub payload_type: u8,
    pub sequence: u16,
    pub timestamp: u32,
    pub ssrc: u32,
}

/// Where the payload starts without the header extension.
pub open spec fn after_csrcs(buf: Seq<u8>) -> int {
    RTP_HEADER_LEN + (buf[0] % 16) * 4
}

/// Whether a header extension follows.
pub open spec fn extended(buf: Seq<u8>) -> bool {
    (buf[0] / 16) % 2 == 1
}

/// Where the payload starts: after the CSRC list and any header extension.
pub open spec fn payload_at(buf: Seq<u8>) -> int {
    let at = after_csrcs(buf);
    if extended(buf) {
        at + 4 + be_value(buf.subrange(at + 2, at + 4)) * 4
    } else {
        at
    }
}

/// Why a buffer does not start with an RTP header.
pub open spec fn rtp_error(buf: Seq<u8>) -> Option<RtpError> {
    if buf.len() < RTP_HEADER_LEN {
        Some(RtpError::TooShort(buf.len() as usize))
    } else if buf[0] / 64 != 2 {
        Some(RtpError::BadVersion(buf[0] / 64))
    } else if extended(buf) && buf.len() < after_csrcs(buf) + 4 {
        Some(
            RtpError::TruncatedHeader { claimed: (after_csrcs(buf) + 4) as usize, len: buf.len() as usize },
        )
    } else if buf.len() < payload_at(buf) {
        Some(RtpError::TruncatedHeader { claimed: payload_at(buf) as usize, len: buf.len() as usize })
    } else {
        None
    }
}

/// The header that a buffer starts with.
pub open spec fn rtp_header(buf: Seq<u8>) -> RtpHeader {
    RtpHeader {
        marker: buf[1] / 128 == 1,
        payload_type: buf[1] % 128,
        sequence: be_value(buf.subrange(2, 4)) as u16,
        timestamp: be_value(buf.subrange(4, 8)) as u32,
        ssrc: be_value(buf.subrange(8, 12)) as u32,
    }
}

impl RtpHeader {
    /// The wire form: version 2, no padding, no extension, no CSRCs.
    pub open spec fn wire(self) -> Seq<u8> {
        seq![0x80u8, ((if self.marker { 128int } else { 0 }) + self.payload_type % 128) as u8] + be_bytes(
            self.sequence as nat,
            2,
        ) + be_bytes(self.timestamp as nat, 4) + be_bytes(self.ssrc as nat, 4)
    }

    pub fn new(payload_type: u8, sequence: u16, timestamp: u32, ssrc: u32) -> (r: Self)
        ensures
            r == (RtpHeader { marker: false, payload_type, sequence, timestamp, ssrc }),
    {
        RtpHeader { marker: false, payload_type, sequence, timestamp, ssrc }
    }

    /// Write the 12-byte header.
    pub fn write(&self, out: &mut [u8; RTP_HEADER_LEN])
        ensures
            final(out)@ == self.wire(),
    {
        let mut w: Vec<u8> = Vec::new();
        w.push(0x80);
        let mark: u8 = if self.marker {
            128
        } else {
            0
        };
        w.push(mark + self.payload_type % 128);
        push_be(&mut w, self.sequence as u64, 2);
        push_be(&mut w, self.timestamp as u64, 4);
        push_be(&mut w, self.ssrc as u64, 4);
        proof {
            lemma_rtp_len(*self);
            assert(w@ =~= self.wire());
        }
        overwrite(out, 0, w.as_slice());
        assert(out@ =~= self.wire());
    }

    /// Parse a header, returning it with the offset at which the payload starts.
    pub fn parse(buf: &[u8]) -> (r: Result<(Self, usize), RtpError>)
        ensures
            match r {
                Ok((header, at)) => {
                    &&& rtp_error(buf@) is None
                    &&& header == rtp_header(buf@)
                    &&& at == payload_at(buf@)
                    &&& at <= buf@.len()
                },
                Err(e) => rtp_error(buf@) == Some(e),
            },
    {
        if buf.len() < RTP_HEADER_LEN {
            return Err(RtpError::TooShort(buf.len()));
        }
        let version: u8 = buf[0] / 64;
        if version != 2 {
            return Err(RtpError::BadVersion(version));
        }
        let csrc_count: usize = (buf[0] % 16) as usize;
        let has_extension = (buf[0] / 16) % 2 == 1;
        let mut at: usize = RTP_HEADER_LEN + csrc_count * 4;
        proof {
            lemma_radix_values();
        }
        if has_extension {
            if buf.len() < at + 4 {
                return Err(RtpError::TruncatedHeader { claimed: at + 4, len: buf.len() });
            }
            let words: usize = read_be(buf, at + 2, 2) as usize;
            at += 4 + words * 4;
        }
        if buf.len() < at {
            return Err(RtpError::TruncatedHeader { claimed: at, len: buf.len() });
        }
        let header = RtpHeader {
            marker: buf[1] / 128 == 1,
            payload_type: buf[1] % 128,
            sequence: read_be(buf, 2, 2) as u16,
            timestamp: read_be(buf, 4, 4) as u32,
            ssrc: read_be(buf, 8, 4) as u32,
        };
        Ok((header, at))
    }
}

proof fn lemma_rtp_len(h: RtpHeader)
    ensures
        h.wire().len() == RTP_HEADER_LEN,
{
    lemma_be_bytes_len(h.sequence as nat, 2);
    lemma_be_bytes_len(h.timestamp as nat, 4);
    lemma_be_bytes_len(h.ssrc as nat, 4);
}

/// Whether the packet ends in padding.
pub open spec fn padded(buf: Seq<u8>) -> bool {
    (buf[0] / 32) % 2 == 1
}

/// Why a packet has no payload from `start` on.
pub open spec fn payload_error(buf: Seq<u8>, start: int) -> Option<RtpError> {
    if buf.len() < start {
        Some(RtpError::TruncatedHeader { claimed: start as usize, len: buf.len() as usize })
    } else if padded(buf) && (buf.last() == 0 || buf.len() < start + buf.last()) {
        let claimed = start + buf.last();
        Some(
            RtpError::TruncatedHeader {
                claimed: if claimed > usize::MAX {
                    usize::MAX
                } else {
                    claimed as usize
                },
                len: buf.len() as usize,
            },
        )
    } else {
        None
    }
}

/// Where the payload ends. The count of padding is in the packet's last byte.
pub open spec fn payload_end(buf: Seq<u8>) -> int {
    if padded(buf) {
        buf.len() - buf.last()
    } else {
        buf.len() as int
    }
}

/// The payload of a received packet, with padding removed.
pub fn payload_range(buf: &[u8], payload_start: usize) -> (r: Result<&[u8], RtpError>)
    requires
        buf@.len() > 0 || payload_start > 0,
    ensures
        match r {
            Ok(payload) => {
                &&& payload_error(buf@, payload_start as int) is None
                &&& payload@ == buf@.subrange(payload_start as int, payload_end(buf@))
            },
            Err(e) => payload_error(buf@, payload_start as int) == Some(e),
        },
{
    let len: usize = buf.len();
    if len < payload_start {
        return Err(RtpError::TruncatedHeader { claimed: payload_start, len });
    }
    if (buf[0] / 32) % 2 == 1 {
        let pad: usize = buf[len - 1] as usize;
        if pad == 0 || len - payload_start < pad {
            return Err(RtpError::TruncatedHeader { claimed: payload_start.saturating_add(pad), len });
        }
        Ok(vstd::slice::slice_subrange(buf, payload_start, len - pad))
    } else {
        Ok(vstd::slice::slice_subrange(buf, payload_start, len))
    }
}

/// A number held to 24 signed bits.
pub open spec fn clamp_24(v: int) -> int {
    if v < -SCALE_24 {
        -SCALE_24
    } else if v > SCALE_24 - 1 {
        SCALE_24 - 1
    } else {
        v
    }
}

/// The steps of quantising a sample.
pub struct QuantiseSteps<S> {
    pub scale: S,
    pub scaled: S,
    pub whole: i128,
}

pub open spec fn quantised_by<S: Sample>(s: S, w: QuantiseSteps<S>, v: int) -> bool {
    &&& whole_is(SCALE_24 as int, w.scale)
    &&& product_is(s, w.scale, w.scaled)
    &&& truncated_is(w.scaled, w.whole)
    &&& v == clamp_24(w.whole as int)
}

/// `v` is the sample as a 24-bit number: scaled, truncated, and saturated after scaling.
pub open spec fn quantised<S: Sample>(s: S, v: int) -> bool {
    exists|w: QuantiseSteps<S>| #[trigger] quantised_by(s, w, v)
}

/// Convert one sample to 24-bit signed, saturating.
///
/// 24-bit signed runs from -8388608 to +8388607, so scaling by 2^23 maps 1.0 to one past
/// the top. Clamping comes after the multiplication.
pub fn to_i24<S: Sample>(s: S) -> (r: i32)
    ensures
        quantised(s, r as int),
        -SCALE_24 <= r < SCALE_24,
{
    let scale = S::whole(SCALE_24);
    let scaled = s.times(scale);
    let whole: i128 = scaled.truncated();
    let v: i64 = if whole < -SCALE_24 as i128 {
        -SCALE_24
    } else if whole > (SCALE_24 - 1) as i128 {
        SCALE_24 - 1
    } else {
        whole as i64
    };
    assert(quantised_by(s, QuantiseSteps { scale, scaled, whole }, v as int));
    v as i32
}

/// The steps back from a 24-bit number.
pub struct RestoreSteps<S> {
    pub raw: S,
    pub scale: S,
}

pub open spec fn restored_by<S: Sample>(v: int, w: RestoreSteps<S>, s: S) -> bool {
    &&& whole_is(v, w.raw)
    &&& whole_is(SCALE_24 as int, w.scale)
    &&& quotient_is(w.raw, w.scale, s)
}

/// `s` is the sample that a 24-bit number stands for.
pub open spec fn restored<S: Sample>(v: int, s: S) -> bool {
    exists|w: RestoreSteps<S>| #[trigger] restored_by(v, w, s)
}

/// The sample that a 24-bit number stands for.
pub fn from_i24<S: Sample>(v: i32) -> (s: S)
    ensures
        restored(v as int, s),
{
    let raw = S::whole(v as i64);
    let scale = S::whole(SCALE_24);
    let s = raw.over(scale);
    assert(restored_by(v as int, RestoreSteps { raw, scale }, s));
    s
}

/// The three bytes of a 24-bit number, most significant first.
pub open spec fn l24_wire(v: int) -> Seq<u8> {
    be_bytes(unsigned(v, 3), 3)
}

/// The 24-bit number of three bytes.
pub open spec fn l24_value(bytes: Seq<u8>) -> int {
    signed(be_value(bytes), 3)
}

/// Sample `i` of coded audio.
pub open spec fn sample_bytes(coded: Seq<u8>, i: int) -> Seq<u8> {
    coded.subrange(3 * i, 3 * i + 3)
}

pub open spec fn sample_coded<S: Sample>(s: S, bytes: Seq<u8>) -> bool {
    exists|v: int| #[trigger] quantised(s, v) && bytes == l24_wire(v)
}

/// Audio coded as big-endian L24.
pub open spec fn coded<S: Sample>(samples: Seq<S>, bytes: Seq<u8>) -> bool {
    &&& bytes.len() == 3 * samples.len()
    &&& forall|i: int| 0 <= i < samples.len() ==> sample_coded(#[trigger] samples[i], sample_bytes(bytes, i))
}

/// Audio restored from big-endian L24.
pub open spec fn decoded<S: Sample>(bytes: Seq<u8>, samples: Seq<S>) -> bool {
    &&& bytes.len() == 3 * samples.len()
    &&& forall|i: int| 0 <= i < samples.len() ==> restored(l24_value(sample_bytes(bytes, i)), #[trigger] samples[i])
}

/// The audio as big-endian L24.
fn l24_of<S: Sample>(samples: &[S]) -> (r: Vec<u8>)
    ensures
        coded(samples@, r@),
{
    let mut out: Vec<u8> = Vec::new();
    let mut i: usize = 0;
    while i < samples.len()
        invariant
            i <= samples@.len(),
            out@.len() == 3 * i,
            forall|j: int| 0 <= j < i ==> sample_coded(#[trigger] samples@[j], sample_bytes(out@, j)),
        decreases samples@.len() - i,
    {
        let v: i32 = to_i24(samples[i]);
        let u: u64 = if v < 0 {
            (v + 0x100_0000) as u64
        } else {
            v as u64
        };
        let ghost before = out@;
        push_be(&mut out, u, 3);
        proof {
            lemma_radix_values();
            lemma_be_bytes_len(u as nat, 3);
            assert(u == unsigned(v as int, 3));
            assert(sample_bytes(out@, i as int) =~= l24_wire(v as int));
            assert(quantised(samples@[i as int], v as int));
            assert forall|j: int| 0 <= j < i + 1 implies sample_coded(
                #[trigger] samples@[j],
                sample_bytes(out@, j),
            ) by {
                if j < i {
                    assert(sample_bytes(out@, j) =~= sample_bytes(before, j));
                }
            }
        }
        i += 1;
    }
    out
}

/// Encode samples as big-endian L24 into `out`.
pub fn encode_l24<S: Sample>(samples: &[S], out: &mut [u8])
    requires
        old(out)@.len() == samples@.len() * L24_BYTES,
    ensures
        coded(samples@, final(out)@),
{
    let bytes = l24_of(samples);
    overwrite(out, 0, bytes.as_slice());
    assert(out@ =~= bytes@);
}

/// Decode big-endian L24. `out` must hold a third as many samples as there are bytes.
pub fn decode_l24<S: Sample>(payload: &[u8], out: &mut [S]) -> (r: Result<(), RtpError>)
    requires
        payload@.len() % 3 == 0 ==> old(out)@.len() == payload@.len() / 3,
    ensures
        match r {
            Ok(()) => payload@.len() % 3 == 0 && decoded(payload@, final(out)@),
            Err(e) => {
                &&& payload@.len() % 3 != 0
                &&& e == RtpError::PartialSample(payload@.len() as usize)
                &&& final(out)@ == old(out)@
            },
        },
{
    if payload.len() % L24_BYTES != 0 {
        return Err(RtpError::PartialSample(payload.len()));
    }
    let mut i: usize = 0;
    while i < out.len()
        invariant
            i <= out@.len(),
            payload@.len() == 3 * out@.len(),
            forall|j: int| 0 <= j < i ==> restored(l24_value(sample_bytes(payload@, j)), #[trigger] out@[j]),
        decreases out@.len() - i,
    {
        assert(payload.len() <= usize::MAX);
        proof {
            lemma_radix_values();
        }
        let u: u64 = read_be(payload, 3 * i, 3);
        let v: i32 = if u < 0x80_0000 {
            u as i32
        } else {
            u as i32 - 0x100_0000
        };
        assert(v == l24_value(sample_bytes(payload@, i as int)));
        out[i] = from_i24(v);
        i += 1;
    }
    Ok(())
}

/// How many frames (samples per channel) an L24 payload holds.
pub fn frames_in_payload(payload_len: usize, channels: usize) -> (r: Result<usize, RtpError>)
    ensures
        match r {
            Ok(frames) => {
                &&& payload_len % 3 == 0
                &&& channels != 0
                &&& (payload_len / 3) % channels == 0
                &&& frames == (payload_len / 3) / channels
            },
            Err(e) => if payload_len % 3 != 0 {
                e == RtpError::PartialSample(payload_len)
            } else {
                &&& channels == 0 || (payload_len / 3) % channels != 0
                &&& e == (RtpError::RaggedFrame { samples: payload_len / 3, channels })
            },
        },
{
    if payload_len % L24_BYTES != 0 {
        return Err(RtpError::PartialSample(payload_len));
    }
    let samples: usize = payload_len / L24_BYTES;
    if channels == 0 || samples % channels != 0 {
        return Err(RtpError::RaggedFrame { samples, channels });
    }
    Ok(samples / channels)
}

/// A packet: the header, then the audio.
pub open spec fn packet_is<S: Sample>(header: RtpHeader, samples: Seq<S>, packet: Seq<u8>) -> bool {
    &&& packet.len() == RTP_HEADER_LEN + 3 * samples.len()
    &&& packet.subrange(0, RTP_HEADER_LEN as int) == header.wire()
    &&& coded(samples, packet.skip(RTP_HEADER_LEN as int))
}

/// Build a complete AES67 audio packet into `out`, returning the bytes written.
pub fn write_packet<S: Sample>(header: &RtpHeader, samples: &[S], out: &mut [u8]) -> (n: usize)
    requires
        RTP_HEADER_LEN + samples@.len() * L24_BYTES <= old(out)@.len(),
    ensures
        n == RTP_HEADER_LEN + samples@.len() * L24_BYTES,
        final(out)@.len() == old(out)@.len(),
        packet_is(*header, samples@, final(out)@.take(n as int)),
        final(out)@.skip(n as int) == old(out)@.skip(n as int),
{
    assert(out.len() <= usize::MAX);
    let total: usize = RTP_HEADER_LEN + samples.len() * L24_BYTES;
    let mut head = [0u8; RTP_HEADER_LEN];
    header.write(&mut head);
    let bytes = l24_of(samples);
    let ghost before = out@;
    overwrite(out, 0, &head);
    overwrite(out, RTP_HEADER_LEN, bytes.as_slice());
    proof {
        lemma_rtp_len(*header);
        let packet = out@.take(total as int);
        assert(packet.subrange(0, RTP_HEADER_LEN as int) =~= header.wire());
        assert(packet.skip(RTP_HEADER_LEN as int) =~= bytes@);
        assert(out@.skip(total as int) =~= before.skip(total as int));
    }
    total
}

// What writing and reading give back.

/// A header is read back as it was written, and the payload starts right after it.
pub proof fn law_rtp_header_round_trip(h: RtpHeader, rest: Seq<u8>)
    requires
        h.payload_type < 128,
    ensures
        rtp_error(h.wire() + rest) is None,
        rtp_header(h.wire() + rest) == h,
        payload_at(h.wire() + rest) == RTP_HEADER_LEN,
        !padded(h.wire() + rest),
{
    let buf = h.wire() + rest;
    lemma_rtp_len(h);
    lemma_be_bytes_len(h.sequence as nat, 2);
    lemma_be_bytes_len(h.timestamp as nat, 4);
    lemma_be_bytes_len(h.ssrc as nat, 4);
    lemma_radix_values();
    assert(buf[0] == 0x80u8);
    assert(buf.subrange(2, 4) =~= be_bytes(h.sequence as nat, 2));
    assert(buf.subrange(4, 8) =~= be_bytes(h.timestamp as nat, 4));
    assert(buf.subrange(8, 12) =~= be_bytes(h.ssrc as nat, 4));
    lemma_be_round_trip(h.sequence as nat, 2);
    lemma_be_round_trip(h.timestamp as nat, 4);
    lemma_be_round_trip(h.ssrc as nat, 4);
}

/// A 24-bit number is read back as it was written.
pub proof fn law_l24_round_trip(v: int)
    requires
        -SCALE_24 <= v < SCALE_24,
    ensures
        l24_value(l24_wire(v)) == v,
        l24_wire(v).len() == 3,
{
    lemma_radix_values();
    lemma_be_bytes_len(unsigned(v, 3), 3);
    lemma_be_round_trip(unsigned(v, 3), 3);
}

proof fn lemma_scaled_apart(x: real, v: real, r: real, n: real)
    by (nonlinear_arith)
    requires
        n > 0 as real,
        r == v / n,
        size(x * n - v) < 1 as real,
    ensures
        size(x - r) * n < 1 as real,
{
    assert(r * n == v);
}

/// In exact arithmetic a sample below full scale comes back within one quantisation step.
pub proof fn law_l24_within_a_step<S: Sample>(val: spec_fn(S) -> real, s: S, v: int, back: S)
    requires
        exact(val),
        quantised(s, v),
        restored(v, back),
        -1 as real <= val(s) < 1 as real,
    ensures
        size(val(s) - val(back)) * (SCALE_24 as real) < 1 as real,
{
    let w = choose|w: QuantiseSteps<S>| #[trigger] quantised_by(s, w, v);
    let u = choose|u: RestoreSteps<S>| #[trigger] restored_by(v, u, back);
    let n = SCALE_24 as real;
    let x = val(s);
    assert(val(w.scaled) == x * n);
    assert(-n <= x * n < n) by (nonlinear_arith)
        requires
            -1 as real <= x < 1 as real,
            n == 8_388_608 as real,
    ;
    assert(size(x * n - w.whole as real) < 1 as real);
    assert(-SCALE_24 <= w.whole <= SCALE_24 - 1);
    assert(v == w.whole);
    lemma_scaled_apart(x, v as real, val(back), n);
}

/// In exact arithmetic anything at or beyond full scale saturates, and does not wrap.
pub proof fn law_l24_saturates<S: Sample>(val: spec_fn(S) -> real, s: S, v: int)
    requires
        exact(val),
        quantised(s, v),
    ensures
        val(s) >= 1 as real ==> v == SCALE_24 - 1,
        val(s) <= -1 as real ==> v == -SCALE_24,
{
    let w = choose|w: QuantiseSteps<S>| #[trigger] quantised_by(s, w, v);
    let n = SCALE_24 as real;
    let x = val(s);
    assert(val(w.scaled) == x * n);
    assert((x >= 1 as real ==> x * n >= n) && (x <= -1 as real ==> x * n <= 0 as real - n)) by (nonlinear_arith)
        requires
            n == 8_388_608 as real,
    ;
    if size(val(w.scaled)) < EXACT_LIMIT as real {
        assert(size(x * n - w.whole as real) < 1 as real);
    } else if x >= 1 as real {
        assert(w.whole >= EXACT_LIMIT);
    } else if x <= -1 as real {
        assert(w.whole <= -EXACT_LIMIT);
    }
}

/// What becomes of a sample that goes out and comes back, as a real number: below full scale
/// it is within one quantisation step, and anything louder is full scale of the same sign.
pub open spec fn carried(x: real, y: real) -> bool {
    if x >= 1 as real {
        y == (SCALE_24 - 1) as real / SCALE_24 as real
    } else if x <= -1 as real {
        y == -1 as real
    } else {
        size(x - y) * (SCALE_24 as real) < 1 as real
    }
}

/// In exact arithmetic decoding undoes encoding, but for quantisation and saturation.
pub proof fn law_l24_audio_round_trips<S: Sample>(
    val: spec_fn(S) -> real,
    samples: Seq<S>,
    bytes: Seq<u8>,
    back: Seq<S>,
)
    requires
        exact(val),
        coded(samples, bytes),
        decoded(bytes, back),
    ensures
        back.len() == samples.len(),
        forall|i: int| 0 <= i < back.len() ==> carried(val(samples[i]), val(#[trigger] back[i])),
{
    assert forall|i: int| 0 <= i < back.len() implies carried(val(samples[i]), val(#[trigger] back[i])) by {
        let s = samples[i];
        assert(sample_coded(s, sample_bytes(bytes, i)));
        let v = choose|v: int| #[trigger] quantised(s, v) && sample_bytes(bytes, i) == l24_wire(v);
        let w = choose|w: QuantiseSteps<S>| #[trigger] quantised_by(s, w, v);
        law_l24_round_trip(v);
        law_l24_saturates(val, s, v);
        if -1 as real <= val(s) < 1 as real {
            law_l24_within_a_step(val, s, v, back[i]);
        }
        let u = choose|u: RestoreSteps<S>| #[trigger] restored_by(v, u, back[i]);
        assert(val(back[i]) == v as real / SCALE_24 as real);
        assert((-8_388_608) as real / 8_388_608 as real == -1 as real) by (nonlinear_arith);
    }
}

} // verus!
