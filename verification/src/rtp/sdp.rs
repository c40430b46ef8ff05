//! AES67 session descriptions.
//!
//! Generation is strict: exactly the lines an AES67 receiver expects. Parsing is lenient,
//! because it has to take whatever a device announces. Unknown lines are ignored.

use vstd::prelude::*;
use vstd::string::StringExecFns;

use crate::ptp::servo::{geometry_is, packet_samples};
use crate::rtp::addressing::Ipv4Addr;
use crate::rtp::scan::{
    address_of, after, find, find_space, first_of, first_space, number, parse_address, parse_number, part,
    pieces_view, same_chars, split, split_at_each, strip_prefix, strip_returns, to_upper, trim, trimmed, upper,
    without_returns, words, words_of,
};
use crate::sample::{
    bits_are, exceeds_is, fraction_is, magnitude_is, truncated_is, whole_is, Sample,
};
use crate::text::{chars_of, decimal, push_decimal, text_of};

verus! {

/// Default RTP port for AES67. Streams are separated by multicast group, not by port.
pub const DEFAULT_RTP_PORT: u16 = 5004;

/// Default multicast TTL. 32 keeps a stream inside the site but off the internet.
pub const DEFAULT_TTL: u8 = 32;

/// The sample rate of an announcement that does not say.
pub const ANNOUNCED_RATE: u32 = 48_000;

/// 2 to the power of -23, the distance from one to the next number of single precision.
pub const EPSILON_BITS: u32 = 0x3400_0000;

/// A packet time as a number that can be read and written.
pub trait PacketTime: Sample {
    /// The number that a text writes, where it does.
    fn read(text: &str) -> Option<Self>;

    /// The number with three places after the point.
    fn three_places(self) -> String;
}

/// `r` is what reading a text gave.
pub open spec fn read_is<S: PacketTime>(text: Seq<char>, r: Option<S>) -> bool {
    exists|s: &str| #[trigger] call_ensures(S::read, (s,), r) && s@ == text
}

/// `text` is a number with three places.
pub open spec fn places_are<S: PacketTime>(x: S, text: Seq<char>) -> bool {
    exists|s: String| #[trigger] call_ensures(S::three_places, (x,), s) && s@ == text
}

#[derive(Clone, Debug, PartialEq, Eq)]
pub enum SdpError {
    /// No `m=audio` line, so this describes no audio stream.
    NoAudioMedia,
    /// No `c=` line, so there is no address to receive from.
    NoConnection,
    /// No `a=rtpmap` for this payload type.
    NoRtpmap(u8),
    /// AES67 mandates L16 or L24.
    UnsupportedEncoding(String),
    Malformed { field: &'static str, value: String },
}

/// An error as a mathematical value.
pub enum SdpErrorView {
    NoAudioMedia,
    NoConnection,
    NoRtpmap(u8),
    UnsupportedEncoding(Seq<char>),
    Malformed { field: Seq<char>, value: Seq<char> },
}

impl View for SdpError {
    type V = SdpErrorView;

    open spec fn view(&self) -> SdpErrorView {
        match self {
            SdpError::NoAudioMedia => SdpErrorView::NoAudioMedia,
            SdpError::NoConnection => SdpErrorView::NoConnection,
            SdpError::NoRtpmap(pt) => SdpErrorView::NoRtpmap(*pt),
            SdpError::UnsupportedEncoding(e) => SdpErrorView::UnsupportedEncoding(e@),
            SdpError::Malformed { field, value } => SdpErrorView::Malformed { field: field@, value: value@ },
        }
    }
}

/// What an error says.
pub open spec fn sdp_error_text(e: SdpErrorView) -> Seq<char> {
    match e {
        SdpErrorView::NoAudioMedia => "no m=audio line, so this describes no audio stream"@,
        SdpErrorView::NoConnection => "no c= connection line, so there is no address to receive from"@,
        SdpErrorView::NoRtpmap(pt) => "no a=rtpmap for payload type "@ + decimal(pt as nat),
        SdpErrorView::UnsupportedEncoding(name) => "unsupported encoding '"@ + name
            + "'; AES67 mandates L16 or L24"@,
        SdpErrorView::Malformed { field, value } => "malformed "@ + field + ": "@ + value,
    }
}

impl SdpError {
    /// What the error says.
    pub fn text(&self) -> (r: String)
        ensures
            r@ == sdp_error_text(self@),
    {
        match self {
            SdpError::NoAudioMedia => String::from_str("no m=audio line, so this describes no audio stream"),
            SdpError::NoConnection => String::from_str(
                "no c= connection line, so there is no address to receive from",
            ),
            SdpError::NoRtpmap(pt) => {
                let mut out = String::from_str("no a=rtpmap for payload type ");
                push_decimal(&mut out, *pt as u64);
                out
            },
            SdpError::UnsupportedEncoding(name) => {
                let mut out = String::from_str("unsupported encoding '");
                out.append(name.as_str());
                out.append("'; AES67 mandates L16 or L24");
                out
            },
            SdpError::Malformed { field, value } => {
                let mut out = String::from_str("malformed ");
                out.append(field);
                out.append(": ");
                out.append(value.as_str());
                out
            },
        }
    }
}

/// Sample format. AES67 mandates both.
#[derive(Clone, Copy, Debug, PartialEq, Eq, Structural)]
pub enum Encoding {
    L16,
    L24,
}

impl Encoding {
    pub open spec fn size(self) -> int {
        match self {
            Encoding::L16 => 2,
            Encoding::L24 => 3,
        }
    }

    pub open spec fn name(self) -> Seq<char> {
        match self {
            Encoding::L16 => "L16"@,
            Encoding::L24 => "L24"@,
        }
    }

    pub fn bytes_per_sample(self) -> (r: usize)
        ensures
            r == self.size(),
    {
        match self {
            Encoding::L16 => 2,
            Encoding::L24 => 3,
        }
    }

    pub fn as_str(self) -> (r: &'static str)
        ensures
            r@ == self.name(),
    {
        match self {
            Encoding::L16 => "L16",
            Encoding::L24 => "L24",
        }
    }
}

/// What the sender says its media clock is locked to.
#[derive(Clone, Debug, PartialEq, Eq)]
pub enum RefClock {
    /// A named grandmaster, plus the PTP domain.
    Ptp { gmid: String, domain: u8 },
    /// Locked to something traceable to international time, grandmaster unnamed.
    PtpTraceable,
    /// The sender did not say.
    Unspecified,
}

/// A reference clock as a mathematical value.
pub enum RefClockView {
    Ptp { gmid: Seq<char>, domain: u8 },
    PtpTraceable,
    Unspecified,
}

impl View for RefClock {
    type V = RefClockView;

    open spec fn view(&self) -> RefClockView {
        match self {
            RefClock::Ptp { gmid, domain } => RefClockView::Ptp { gmid: gmid@, domain: *domain },
            RefClock::PtpTraceable => RefClockView::PtpTraceable,
            RefClock::Unspecified => RefClockView::Unspecified,
        }
    }
}

#[derive(Clone, Copy, Debug, PartialEq, Eq, Structural)]
pub enum Direction {
    SendOnly,
    RecvOnly,
    SendRecv,
}

impl Direction {
    pub open spec fn name(self) -> Seq<char> {
        match self {
            Direction::SendOnly => "sendonly"@,
            Direction::RecvOnly => "recvonly"@,
            Direction::SendRecv => "sendrecv"@,
        }
    }

    pub fn as_str(self) -> (r: &'static str)
        ensures
            r@ == self.name(),
    {
        match self {
            Direction::SendOnly => "sendonly",
            Direction::RecvOnly => "recvonly",
            Direction::SendRecv => "sendrecv",
        }
    }
}

/// One AES67 audio stream.
#[derive(Clone, Debug, PartialEq)]
pub struct StreamDescription<S> {
    pub session_name: String,
    pub origin_addr: Ipv4Addr,
    pub session_id: u64,
    pub session_version: u64,
    pub address: Ipv4Addr,
    pub ttl: u8,
    pub port: u16,
    pub payload_type: u8,
    pub encoding: Encoding,
    pub sample_rate: u32,
    pub channels: u16,
    /// Packet time in milliseconds. AES67 mandates one millisecond; a receiver must not
    /// assume a whole number.
    pub ptime_ms: S,
    pub refclk: RefClock,
    pub direction: Direction,
}

/// A description but for its packet time, as a mathematical value.
#[verifier::ext_equal]
pub struct PlainView {
    pub session_name: Seq<char>,
    pub origin_addr: u32,
    pub session_id: u64,
    pub session_version: u64,
    pub address: u32,
    pub ttl: u8,
    pub port: u16,
    pub payload_type: u8,
    pub encoding: Encoding,
    pub sample_rate: u32,
    pub channels: u16,
    pub refclk: RefClockView,
    pub direction: Direction,
}

/// The steps of writing a packet time.
pub struct PtimeSteps<S> {
    pub truncated: i128,
    pub fraction: S,
    pub size: S,
    pub epsilon: S,
    pub small: bool,
}

/// A number cut to 32 bits without a sign.
pub open spec fn clamp_u32(n: int) -> nat {
    if n < 0 {
        0
    } else if n > u32::MAX {
        u32::MAX as nat
    } else {
        n as nat
    }
}

pub open spec fn ptime_text_by<S: PacketTime>(x: S, w: PtimeSteps<S>, text: Seq<char>) -> bool {
    &&& truncated_is(x, w.truncated)
    &&& fraction_is(x, w.fraction)
    &&& magnitude_is(w.fraction, w.size)
    &&& bits_are(EPSILON_BITS, w.epsilon)
    &&& exceeds_is(w.epsilon, w.size, w.small)
    &&& if w.small {
        text == decimal(clamp_u32(w.truncated as int))
    } else {
        places_are(x, text)
    }
}

/// `text` is a packet time as it is announced: whole milliseconds without a decimal point,
/// three places otherwise.
pub open spec fn ptime_text_is<S: PacketTime>(x: S, text: Seq<char>) -> bool {
    exists|w: PtimeSteps<S>| #[trigger] ptime_text_by(x, w, text)
}

/// The lines of a description, each but for its ending.
pub open spec fn sdp_lines(p: PlainView, ptime: Seq<char>) -> Seq<Seq<char>> {
    seq![
        "v=0"@,
        origin_text(p),
        "s="@ + p.session_name,
        "c=IN IP4 "@ + address_text(p.address) + "/"@ + decimal(p.ttl as nat),
        "t=0 0"@,
        "m=audio "@ + decimal(p.port as nat) + " RTP/AVP "@ + decimal(p.payload_type as nat),
        rtpmap_text(p),
        "a=ptime:"@ + ptime,
    ] + refclk_lines(p.refclk) + seq!["a=mediaclk:direct=0"@, "a="@ + p.direction.name()]
}

pub open spec fn origin_text(p: PlainView) -> Seq<char> {
    "o=- "@ + decimal(p.session_id as nat) + " "@ + decimal(p.session_version as nat) + " IN IP4 "@
        + address_text(p.origin_addr)
}

pub open spec fn rtpmap_text(p: PlainView) -> Seq<char> {
    "a=rtpmap:"@ + decimal(p.payload_type as nat) + " "@ + p.encoding.name() + "/"@ + decimal(
        p.sample_rate as nat,
    ) + "/"@ + decimal(p.channels as nat)
}

pub open spec fn refclk_lines(r: RefClockView) -> Seq<Seq<char>> {
    match r {
        RefClockView::Ptp { gmid, domain } => seq![
            "a=ts-refclk:ptp=IEEE1588-2008:"@ + gmid + ":"@ + decimal(domain as nat),
        ],
        RefClockView::PtpTraceable => seq!["a=ts-refclk:ptp=IEEE1588-2008:traceable"@],
        RefClockView::Unspecified => Seq::empty(),
    }
}

/// An address as four octets with dots between.
pub open spec fn address_text(bits: u32) -> Seq<char> {
    decimal((bits / 0x100_0000) as nat) + "."@ + decimal(((bits / 0x1_0000) % 0x100) as nat) + "."@ + decimal(
        ((bits / 0x100) % 0x100) as nat,
    ) + "."@ + decimal((bits % 0x100) as nat)
}

/// Lines one after the other, each with its ending.
pub open spec fn joined(lines: Seq<Seq<char>>) -> Seq<char>
    decreases lines.len(),
{
    if lines.len() == 0 {
        Seq::empty()
    } else {
        joined(lines.drop_last()) + lines.last() + "\r\n"@
    }
}

/// What a document has said so far.
#[verifier::ext_equal]
pub struct Collected {
    pub session_name: Seq<char>,
    pub origin_addr: u32,
    pub session_id: u64,
    pub session_version: u64,
    pub address: Option<u32>,
    pub ttl: u8,
    pub port: Option<u16>,
    pub payload_type: Option<u8>,
    /// Every payload mapping, in the order given.
    pub maps: Seq<MapView>,
    /// The texts given for the packet time.
    pub ptimes: Seq<Seq<char>>,
    pub refclk: RefClockView,
    pub direction: Direction,
}

/// A payload mapping: the payload type that it is for, the encoding's name, the rate and
/// the channels.
pub struct MapView {
    pub payload_type: u8,
    pub encoding: Seq<char>,
    pub rate: u32,
    pub channels: u16,
}

/// Before the first line.
pub open spec fn nothing_collected() -> Collected {
    Collected {
        session_name: Seq::empty(),
        origin_addr: 0,
        session_id: 0,
        session_version: 0,
        address: None,
        ttl: DEFAULT_TTL,
        port: None,
        payload_type: None,
        maps: Seq::empty(),
        ptimes: Seq::empty(),
        refclk: RefClockView::Unspecified,
        direction: Direction::SendOnly,
    }
}

/// A number, or what stands in for it.
pub open spec fn number_or(s: Seq<char>, max: int, otherwise: int) -> int {
    match number(s, max) {
        Some(n) => n,
        None => otherwise,
    }
}

/// `o=<user> <id> <version> <nettype> <addrtype> <address>`
pub open spec fn take_origin(c: Collected, value: Seq<char>) -> Collected {
    let f = words(value);
    if f.len() >= 6 {
        Collected {
            session_id: number_or(f[1], u64::MAX as int, 0) as u64,
            session_version: number_or(f[2], u64::MAX as int, 0) as u64,
            origin_addr: match address_of(f[5]) {
                Some(a) => a,
                None => 0,
            },
            ..c
        }
    } else {
        c
    }
}

/// `c=IN IP4 <address>[/<ttl>[/<count>]]`
pub open spec fn take_connection(c: Collected, value: Seq<char>) -> Result<Collected, SdpErrorView> {
    let f = words(value);
    if f.len() >= 3 {
        let p = split(f[2], '/');
        match address_of(p[0]) {
            None => Err(SdpErrorView::Malformed { field: "connection address"@, value: p[0] }),
            Some(a) => Ok(
                Collected {
                    address: Some(a),
                    ttl: if p.len() >= 2 {
                        number_or(p[1], u8::MAX as int, DEFAULT_TTL as int) as u8
                    } else {
                        c.ttl
                    },
                    ..c
                },
            ),
        }
    } else {
        Ok(c)
    }
}

/// `m=audio <port> RTP/AVP <fmt>`
pub open spec fn take_media(c: Collected, value: Seq<char>) -> Result<Collected, SdpErrorView> {
    let f = words(value);
    if f.len() >= 4 && f[0] == "audio"@ {
        match number(f[1], u16::MAX as int) {
            None => Err(SdpErrorView::Malformed { field: "media port"@, value: f[1] }),
            Some(port) => match number(f[3], u8::MAX as int) {
                None => Err(SdpErrorView::Malformed { field: "payload type"@, value: f[3] }),
                Some(pt) => Ok(Collected { port: Some(port as u16), payload_type: Some(pt as u8), ..c }),
            },
        }
    } else {
        Ok(c)
    }
}

/// `<pt> <encoding>/<rate>[/<channels>]`, where it says so. The channel count defaults to
/// one: omitting it is no error.
pub open spec fn map_of(rest: Seq<char>) -> Option<MapView> {
    let k = first_space(rest);
    if k < rest.len() && number(rest.take(k), u8::MAX as int) is Some {
        let p = split(trimmed(rest.skip(k + 1)), '/');
        Some(
            MapView {
                payload_type: number(rest.take(k), u8::MAX as int)->0 as u8,
                encoding: p[0],
                rate: if p.len() >= 2 {
                    number_or(p[1], u32::MAX as int, ANNOUNCED_RATE as int) as u32
                } else {
                    ANNOUNCED_RATE
                },
                channels: if p.len() >= 3 {
                    number_or(p[2], u16::MAX as int, 1) as u16
                } else {
                    1
                },
            },
        )
    } else {
        None
    }
}

/// `ptp=<version>:<gmid>[:<domain>]` or `ptp=<version>:traceable`
pub open spec fn refclk_of(spec_text: Seq<char>) -> RefClockView {
    match after(spec_text, "ptp="@) {
        None => RefClockView::Unspecified,
        Some(rest) => {
            let p = split(rest, ':');
            if p.len() < 2 {
                RefClockView::Unspecified
            } else if p[1] == "traceable"@ {
                RefClockView::PtpTraceable
            } else {
                RefClockView::Ptp {
                    gmid: p[1],
                    domain: if p.len() >= 3 {
                        number_or(p[2], u8::MAX as int, 0) as u8
                    } else {
                        0
                    },
                }
            }
        },
    }
}

/// An attribute. One that is not known changes nothing.
pub open spec fn take_attribute(c: Collected, value: Seq<char>) -> Collected {
    match after(value, "rtpmap:"@) {
        Some(rest) => match map_of(rest) {
            Some(m) => Collected { maps: c.maps.push(m), ..c },
            None => c,
        },
        None => match after(value, "ptime:"@) {
            Some(rest) => Collected { ptimes: c.ptimes.push(trimmed(rest)), ..c },
            None => match after(value, "ts-refclk:"@) {
                Some(rest) => Collected { refclk: refclk_of(trimmed(rest)), ..c },
                None => if value == "sendonly"@ {
                    Collected { direction: Direction::SendOnly, ..c }
                } else if value == "recvonly"@ {
                    Collected { direction: Direction::RecvOnly, ..c }
                } else if value == "sendrecv"@ {
                    Collected { direction: Direction::SendRecv, ..c }
                } else {
                    c
                },
            },
        },
    }
}

/// One line: a key, an equals sign and a value. Any other line is ignored.
pub open spec fn take_line(c: Collected, raw: Seq<char>) -> Result<Collected, SdpErrorView> {
    let line = strip_returns(raw);
    let k = first_of(line, '=');
    if k >= line.len() {
        Ok(c)
    } else {
        take_field(c, line.take(k), line.skip(k + 1))
    }
}

pub open spec fn take_field(c: Collected, key: Seq<char>, value: Seq<char>) -> Result<Collected, SdpErrorView> {
    if key == "o"@ {
        Ok(take_origin(c, value))
    } else if key == "s"@ {
        Ok(Collected { session_name: value, ..c })
    } else if key == "c"@ {
        take_connection(c, value)
    } else if key == "m"@ {
        take_media(c, value)
    } else if key == "a"@ {
        Ok(take_attribute(c, value))
    } else {
        Ok(c)
    }
}

/// The first `n` lines, up to the first that is malformed.
pub open spec fn collect(lines: Seq<Seq<char>>, n: int) -> Result<Collected, SdpErrorView>
    decreases n,
{
    if n <= 0 {
        Ok(nothing_collected())
    } else {
        match collect(lines, n - 1) {
            Err(e) => Err(e),
            Ok(c) => take_line(c, lines[n - 1]),
        }
    }
}

/// The last mapping for a payload type, where there is one.
pub open spec fn map_for(maps: Seq<MapView>, payload_type: u8) -> Option<MapView>
    decreases maps.len(),
{
    if maps.len() == 0 {
        None
    } else if maps.last().payload_type == payload_type {
        Some(maps.last())
    } else {
        map_for(maps.drop_last(), payload_type)
    }
}

/// The stream that a document describes, where it says enough: a media line, an address, and
/// a mapping for the media's own payload type.
pub open spec fn conclude(c: Collected) -> Result<PlainView, SdpErrorView> {
    if c.port is None || c.payload_type is None {
        Err(SdpErrorView::NoAudioMedia)
    } else if c.address is None {
        Err(SdpErrorView::NoConnection)
    } else if map_for(c.maps, c.payload_type->0) is None {
        Err(SdpErrorView::NoRtpmap(c.payload_type->0))
    } else {
        let m = map_for(c.maps, c.payload_type->0)->0;
        let name = upper(m.encoding);
        if name == "L24"@ || name == "L16"@ {
            Ok(
                PlainView {
                    session_name: c.session_name,
                    origin_addr: c.origin_addr,
                    session_id: c.session_id,
                    session_version: c.session_version,
                    address: c.address->0,
                    ttl: c.ttl,
                    port: c.port->0,
                    payload_type: c.payload_type->0,
                    encoding: if name == "L24"@ {
                        Encoding::L24
                    } else {
                        Encoding::L16
                    },
                    sample_rate: m.rate,
                    channels: m.channels,
                    refclk: c.refclk,
                    direction: c.direction,
                },
            )
        } else {
            Err(SdpErrorView::UnsupportedEncoding(name))
        }
    }
}

/// What a document says, or why it cannot be used.
pub open spec fn collected(text: Seq<char>) -> Result<Collected, SdpErrorView> {
    collect(split(text, '\n'), split(text, '\n').len() as int)
}

pub open spec fn each_read<S: PacketTime>(texts: Seq<Seq<char>>, reads: Seq<Option<S>>) -> bool {
    &&& reads.len() == texts.len()
    &&& forall|i: int| 0 <= i < reads.len() ==> read_is(texts[i], #[trigger] reads[i])
}

/// The last number that could be read, and one where there is none.
pub open spec fn last_read<S: PacketTime>(reads: Seq<Option<S>>, x: S) -> bool
    decreases reads.len(),
{
    if reads.len() == 0 {
        whole_is(1, x)
    } else {
        match reads.last() {
            Some(y) => x == y,
            None => last_read(reads.drop_last(), x),
        }
    }
}

/// `x` is the packet time that these texts announce.
pub open spec fn ptime_read<S: PacketTime>(texts: Seq<Seq<char>>, x: S) -> bool {
    exists|reads: Seq<Option<S>>| #[trigger] each_read(texts, reads) && last_read(reads, x)
}

/// `text` is a description as it is announced.
pub open spec fn written_is<S: PacketTime>(d: StreamDescription<S>, text: Seq<char>) -> bool {
    exists|ptime: Seq<char>| #[trigger]
        ptime_text_is(d.ptime_ms, ptime) && text == joined(sdp_lines(d.plain(), ptime))
}

/// `r` is what a document describes, or why it cannot be used.
pub open spec fn parsed_is<S: PacketTime>(text: Seq<char>, r: Result<StreamDescription<S>, SdpError>) -> bool {
    match r {
        Ok(d) => {
            &&& collected(text) matches Ok(c)
            &&& conclude(c) == Ok::<PlainView, SdpErrorView>(d.plain())
            &&& ptime_read(c.ptimes, d.ptime_ms)
        },
        Err(e) => match collected(text) {
            Ok(c) => conclude(c) == Err::<PlainView, SdpErrorView>(e@),
            Err(f) => f == e@,
        },
    }
}

impl<S: PacketTime> StreamDescription<S> {
    /// The description but for its packet time.
    pub open spec fn plain(&self) -> PlainView {
        PlainView {
            session_name: self.session_name@,
            origin_addr: self.origin_addr.bits,
            session_id: self.session_id,
            session_version: self.session_version,
            address: self.address.bits,
            ttl: self.ttl,
            port: self.port,
            payload_type: self.payload_type,
            encoding: self.encoding,
            sample_rate: self.sample_rate,
            channels: self.channels,
            refclk: self.refclk@,
            direction: self.direction,
        }
    }

    /// A mono L24 stream at 48 kHz and one millisecond.
    pub fn mono_l24(
        session_name: &str,
        origin_addr: Ipv4Addr,
        address: Ipv4Addr,
        payload_type: u8,
        session_id: u64,
    ) -> (r: Self)
        ensures
            r.plain() == (PlainView {
                session_name: session_name@,
                origin_addr: origin_addr.bits,
                session_id,
                session_version: session_id,
                address: address.bits,
                ttl: DEFAULT_TTL,
                port: DEFAULT_RTP_PORT,
                payload_type,
                encoding: Encoding::L24,
                sample_rate: 48_000,
                channels: 1,
                refclk: RefClockView::PtpTraceable,
                direction: Direction::SendOnly,
            }),
            whole_is(1, r.ptime_ms),
    {
        StreamDescription {
            session_name: String::from_str(session_name),
            origin_addr,
            session_id,
            session_version: session_id,
            address,
            ttl: DEFAULT_TTL,
            port: DEFAULT_RTP_PORT,
            payload_type,
            encoding: Encoding::L24,
            sample_rate: 48_000,
            channels: 1,
            ptime_ms: S::whole(1),
            refclk: RefClock::PtpTraceable,
            direction: Direction::SendOnly,
        }
    }

    /// Samples per packet per channel, which is also the engine's block size when the two
    /// are lined up correctly.
    pub fn ptime_samples(&self) -> (r: usize)
        ensures
            geometry_is(self.sample_rate, self.ptime_ms, r),
    {
        packet_samples(self.sample_rate, self.ptime_ms)
    }

    /// Payload bytes per packet, all channels.
    pub fn payload_bytes(&self) -> (r: usize)
        requires
            forall|n: usize| #[trigger]
                geometry_is(self.sample_rate, self.ptime_ms, n) ==> n * self.channels * self.encoding.size()
                    <= usize::MAX,
        ensures
            exists|n: usize| #[trigger]
                geometry_is(self.sample_rate, self.ptime_ms, n) && r == n * self.channels
                    * self.encoding.size(),
    {
        let n: usize = self.ptime_samples();
        let size: usize = self.encoding.bytes_per_sample();
        proof {
            lemma_product_fits(n as int, self.channels as int, size as int);
        }
        n * self.channels as usize * size
    }

    /// Payload bytes per packet, all channels, where that many can be counted.
    pub fn checked_payload_bytes(&self) -> (r: Option<usize>)
        ensures
            match r {
                Some(bytes) => exists|n: usize| #[trigger]
                    geometry_is(self.sample_rate, self.ptime_ms, n) && bytes == n * self.channels
                        * self.encoding.size(),
                None => exists|n: usize| #[trigger]
                    geometry_is(self.sample_rate, self.ptime_ms, n) && n * self.channels * self.encoding.size()
                        > usize::MAX,
            },
    {
        let n: usize = self.ptime_samples();
        let size: usize = self.encoding.bytes_per_sample();
        proof {
            lemma_product_fits(n as int, self.channels as int, size as int);
        }
        match n.checked_mul(self.channels as usize) {
            Some(samples) => samples.checked_mul(size),
            None => None,
        }
    }

    /// The packet time as it is announced.
    fn ptime_text(&self) -> (r: String)
        ensures
            ptime_text_is(self.ptime_ms, r@),
    {
        let x = self.ptime_ms;
        let truncated: i128 = x.truncated();
        let fraction = x.fraction();
        let size = fraction.magnitude();
        let epsilon = S::from_bits(EPSILON_BITS);
        let small = epsilon.exceeds(size);
        let ghost w = PtimeSteps { truncated, fraction, size, epsilon, small };
        if small {
            let n: u64 = if truncated < 0 {
                0
            } else if truncated > u32::MAX as i128 {
                u32::MAX as u64
            } else {
                truncated as u64
            };
            let mut out = String::new();
            push_decimal(&mut out, n);
            assert(out@ =~= decimal(clamp_u32(truncated as int)));
            assert(ptime_text_by(x, w, out@));
            out
        } else {
            let out = x.three_places();
            assert(call_ensures(S::three_places, (x,), out) && out@ == out@);
            assert(ptime_text_by(x, w, out@));
            out
        }
    }

    /// Render as SDP text with CRLF line endings.
    pub fn to_sdp(&self) -> (r: String)
        ensures
            written_is(*self, r@),
    {
        let ptime = self.ptime_text();
        let ghost p = self.plain();
        let ghost lines = sdp_lines(p, ptime@);
        let ghost mut done: Seq<Seq<char>> = Seq::empty();
        let mut out = String::new();

        let v = String::from_str("v=0");
        end_line(&mut out, &v, Ghost(done));
        proof {
            done = done.push(v@);
        }

        let mut o = String::from_str("o=- ");
        push_decimal(&mut o, self.session_id);
        o.append(" ");
        push_decimal(&mut o, self.session_version);
        o.append(" IN IP4 ");
        push_address(&mut o, self.origin_addr);
        end_line(&mut out, &o, Ghost(done));
        proof {
            assert(o@ == origin_text(p));
            done = done.push(o@);
        }

        let mut name = String::from_str("s=");
        name.append(self.session_name.as_str());
        end_line(&mut out, &name, Ghost(done));
        proof {
            done = done.push(name@);
        }

        let mut c = String::from_str("c=IN IP4 ");
        push_address(&mut c, self.address);
        c.append("/");
        push_decimal(&mut c, self.ttl as u64);
        end_line(&mut out, &c, Ghost(done));
        proof {
            done = done.push(c@);
        }

        let t = String::from_str("t=0 0");
        end_line(&mut out, &t, Ghost(done));
        proof {
            done = done.push(t@);
        }

        let mut m = String::from_str("m=audio ");
        push_decimal(&mut m, self.port as u64);
        m.append(" RTP/AVP ");
        push_decimal(&mut m, self.payload_type as u64);
        end_line(&mut out, &m, Ghost(done));
        proof {
            done = done.push(m@);
        }

        let mut map = String::from_str("a=rtpmap:");
        push_decimal(&mut map, self.payload_type as u64);
        map.append(" ");
        map.append(self.encoding.as_str());
        map.append("/");
        push_decimal(&mut map, self.sample_rate as u64);
        map.append("/");
        push_decimal(&mut map, self.channels as u64);
        end_line(&mut out, &map, Ghost(done));
        proof {
            assert(map@ == rtpmap_text(p));
            done = done.push(map@);
        }

        let mut time = String::from_str("a=ptime:");
        time.append(ptime.as_str());
        end_line(&mut out, &time, Ghost(done));
        proof {
            done = done.push(time@);
        }

        match &self.refclk {
            RefClock::Ptp { gmid, domain } => {
                let mut clock = String::from_str("a=ts-refclk:ptp=IEEE1588-2008:");
                clock.append(gmid.as_str());
                clock.append(":");
                push_decimal(&mut clock, *domain as u64);
                end_line(&mut out, &clock, Ghost(done));
                proof {
                    done = done.push(clock@);
                }
            },
            RefClock::PtpTraceable => {
                let clock = String::from_str("a=ts-refclk:ptp=IEEE1588-2008:traceable");
                end_line(&mut out, &clock, Ghost(done));
                proof {
                    done = done.push(clock@);
                }
            },
            RefClock::Unspecified => {},
        }

        let media = String::from_str("a=mediaclk:direct=0");
        end_line(&mut out, &media, Ghost(done));
        proof {
            done = done.push(media@);
        }

        let mut way = String::from_str("a=");
        way.append(self.direction.as_str());
        end_line(&mut out, &way, Ghost(done));
        proof {
            done = done.push(way@);
            assert(done =~= lines);
            assert(ptime_text_is(self.ptime_ms, ptime@));
        }
        out
    }

    /// Parse an SDP document. Tolerates CRLF or LF, reordered lines and unknown attributes;
    /// rejects only what makes the stream unusable.
    pub fn parse(text: &str) -> (r: Result<Self, SdpError>)
        ensures
            parsed_is(text@, r),
    {
        let session = match Session::read(text) {
            Ok(session) => session,
            Err(e) => {
                return Err(e);
            },
        };
        let ghost c = session@;
        let (port, payload_type) = match (session.port, session.payload_type) {
            (Some(port), Some(payload_type)) => (port, payload_type),
            _ => {
                return Err(SdpError::NoAudioMedia);
            },
        };
        let address = match session.address {
            Some(address) => address,
            None => {
                return Err(SdpError::NoConnection);
            },
        };
        let at: usize = match session.mapping(payload_type) {
            Some(at) => at,
            None => {
                return Err(SdpError::NoRtpmap(payload_type));
            },
        };
        let map = &session.maps[at];
        let name = to_upper(map.encoding.as_slice());
        let encoding = if is_text(name.as_slice(), "L24") {
            Encoding::L24
        } else if is_text(name.as_slice(), "L16") {
            Encoding::L16
        } else {
            return Err(SdpError::UnsupportedEncoding(text_of(name.as_slice())));
        };
        let sample_rate: u32 = map.rate;
        let channels: u16 = map.channels;
        let ptime_ms: S = read_ptime(&session.ptimes);
        let d = StreamDescription {
            session_name: session.session_name,
            origin_addr: Ipv4Addr { bits: session.origin_addr },
            session_id: session.session_id,
            session_version: session.session_version,
            address: Ipv4Addr { bits: address },
            ttl: session.ttl,
            port,
            payload_type,
            encoding,
            sample_rate,
            channels,
            ptime_ms,
            refclk: session.refclk,
            direction: session.direction,
        };
        proof {
            reveal_strlit("L24");
            reveal_strlit("L16");
        }
        Ok(d)
    }
}

proof fn lemma_product_fits(n: int, channels: int, size: int)
    requires
        0 <= n,
        0 <= channels,
        1 <= size,
    ensures
        0 <= n * channels <= n * channels * size,
{
    assert(0 <= n * channels) by (nonlinear_arith)
        requires
            0 <= n,
            0 <= channels,
    ;
    let x = n * channels;
    assert(x <= x * size) by (nonlinear_arith)
        requires
            0 <= x,
            1 <= size,
    ;
}

/// Appends an address as four octets with dots between.
fn push_address(out: &mut String, a: Ipv4Addr)
    ensures
        final(out)@ == old(out)@ + address_text(a.bits),
{
    let n: u32 = a.bits;
    push_decimal(out, (n / 0x100_0000) as u64);
    out.append(".");
    push_decimal(out, ((n / 0x1_0000) % 0x100) as u64);
    out.append(".");
    push_decimal(out, ((n / 0x100) % 0x100) as u64);
    out.append(".");
    push_decimal(out, (n % 0x100) as u64);
    assert(out@ =~= old(out)@ + address_text(a.bits));
}

/// Appends one line with its ending.
fn end_line(out: &mut String, line: &String, Ghost(before): Ghost<Seq<Seq<char>>>)
    requires
        old(out)@ == joined(before),
    ensures
        final(out)@ == joined(before.push(line@)),
{
    out.append(line.as_str());
    out.append("\r\n");
    assert(before.push(line@).drop_last() =~= before);
}

/// Whether a run of characters is a text.
fn is_text(s: &[char], text: &str) -> (r: bool)
    ensures
        r == (s@ == text@),
{
    let t = chars_of(text);
    same_chars(s, t.as_slice())
}

/// What follows a prefix, where there is one.
fn rest_after<'a>(s: &'a [char], prefix: &str) -> (r: Option<&'a [char]>)
    ensures
        match r {
            Some(rest) => after(s@, prefix@) == Some(rest@),
            None => after(s@, prefix@) is None,
        },
{
    let t = chars_of(prefix);
    strip_prefix(s, t.as_slice())
}

/// The packet time that these texts announce.
fn read_ptime<S: PacketTime>(texts: &Vec<String>) -> (x: S)
    ensures
        ptime_read(texts_view(texts@), x),
{
    let mut x = S::whole(1);
    let ghost mut reads: Seq<Option<S>> = Seq::empty();
    let mut i: usize = 0;
    while i < texts.len()
        invariant
            i <= texts@.len(),
            each_read(texts_view(texts@).take(i as int), reads),
            last_read(reads, x),
        decreases texts@.len() - i,
    {
        let text = texts[i].as_str();
        let r = S::read(text);
        proof {
            let more = reads.push(r);
            assert(call_ensures(S::read, (text,), r) && text@ == texts_view(texts@)[i as int]);
            assert(read_is(texts_view(texts@)[i as int], r));
            assert forall|k: int| 0 <= k < more.len() implies read_is(
                texts_view(texts@).take(i + 1)[k],
                #[trigger] more[k],
            ) by {
                if k < i {
                    assert(read_is(texts_view(texts@).take(i as int)[k], reads[k]));
                }
            }
            assert(more.drop_last() =~= reads);
            reads = more;
        }
        match r {
            Some(y) => {
                x = y;
            },
            None => {},
        }
        i += 1;
    }
    assert(texts_view(texts@).take(i as int) =~= texts_view(texts@));
    x
}

/// The texts of a list.
pub open spec fn texts_view(v: Seq<String>) -> Seq<Seq<char>> {
    v.map_values(|s: String| s@)
}

/// A payload mapping.
struct Rtpmap {
    payload_type: u8,
    encoding: Vec<char>,
    rate: u32,
    channels: u16,
}

impl View for Rtpmap {
    type V = MapView;

    closed spec fn view(&self) -> MapView {
        MapView {
            payload_type: self.payload_type,
            encoding: self.encoding@,
            rate: self.rate,
            channels: self.channels,
        }
    }
}

spec fn maps_view(v: Seq<Rtpmap>) -> Seq<MapView> {
    v.map_values(|m: Rtpmap| m@)
}

/// What a document has said so far.
struct Session {
    session_name: String,
    origin_addr: u32,
    session_id: u64,
    session_version: u64,
    address: Option<u32>,
    ttl: u8,
    port: Option<u16>,
    payload_type: Option<u8>,
    maps: Vec<Rtpmap>,
    ptimes: Vec<String>,
    refclk: RefClock,
    direction: Direction,
}

impl View for Session {
    type V = Collected;

    closed spec fn view(&self) -> Collected {
        Collected {
            session_name: self.session_name@,
            origin_addr: self.origin_addr,
            session_id: self.session_id,
            session_version: self.session_version,
            address: self.address,
            ttl: self.ttl,
            port: self.port,
            payload_type: self.payload_type,
            maps: maps_view(self.maps@),
            ptimes: texts_view(self.ptimes@),
            refclk: self.refclk@,
            direction: self.direction,
        }
    }
}

/// A number, or what stands in for it.
fn number_else(s: &[char], max: u64, otherwise: u64) -> (r: u64)
    requires
        otherwise <= max,
    ensures
        r == number_or(s@, max as int, otherwise as int),
        r <= max,
{
    match parse_number(s, max) {
        Some(n) => n,
        None => otherwise,
    }
}

/// The payload mapping that an attribute gives, where it does.
fn parse_map(rest: &[char]) -> (r: Option<Rtpmap>)
    ensures
        match r {
            Some(m) => map_of(rest@) == Some(m@),
            None => map_of(rest@) is None,
        },
{
    let k: usize = find_space(rest);
    if k >= rest.len() {
        return None;
    }
    let pt = part(rest, 0, k);
    assert(pt@ =~= rest@.take(k as int));
    let payload_type: u8 = match parse_number(pt, u8::MAX as u64) {
        Some(n) => n as u8,
        None => {
            return None;
        },
    };
    let tail = part(rest, k + 1, rest.len());
    assert(tail@ =~= rest@.skip(k + 1));
    let p = split_at_each(trim(tail), '/');
    let ghost view = pieces_view(p@);
    proof {
        assert(view.len() == p@.len());
        lemma_split_nonempty(trimmed(tail@), '/');
        assert(view[0] == p@[0]@);
    }
    let rate: u32 = if p.len() >= 2 {
        assert(view[1] == p@[1]@);
        number_else(p[1].as_slice(), u32::MAX as u64, ANNOUNCED_RATE as u64) as u32
    } else {
        ANNOUNCED_RATE
    };
    let channels: u16 = if p.len() >= 3 {
        assert(view[2] == p@[2]@);
        number_else(p[2].as_slice(), u16::MAX as u64, 1) as u16
    } else {
        1
    };
    let encoding = vstd::slice::slice_to_vec(p[0].as_slice());
    Some(Rtpmap { payload_type, encoding, rate, channels })
}

/// A text taken apart has at least one piece.
proof fn lemma_split_nonempty(s: Seq<char>, c: char)
    ensures
        split(s, c).len() >= 1,
{
}

/// The reference clock that an attribute names.
fn parse_refclk(spec_text: &[char]) -> (r: RefClock)
    ensures
        r@ == refclk_of(spec_text@),
{
    let rest = match rest_after(spec_text, "ptp=") {
        Some(rest) => rest,
        None => {
            return RefClock::Unspecified;
        },
    };
    let p = split_at_each(rest, ':');
    let ghost view = pieces_view(p@);
    assert(view.len() == p@.len());
    if p.len() < 2 {
        return RefClock::Unspecified;
    }
    assert(view[1] == p@[1]@);
    if is_text(p[1].as_slice(), "traceable") {
        return RefClock::PtpTraceable;
    }
    let domain: u8 = if p.len() >= 3 {
        assert(view[2] == p@[2]@);
        number_else(p[2].as_slice(), u8::MAX as u64, 0) as u8
    } else {
        0
    };
    RefClock::Ptp { gmid: text_of(p[1].as_slice()), domain }
}

impl Session {
    fn new() -> (r: Self)
        ensures
            r@ == nothing_collected(),
    {
        let r = Session {
            session_name: String::new(),
            origin_addr: 0,
            session_id: 0,
            session_version: 0,
            address: None,
            ttl: DEFAULT_TTL,
            port: None,
            payload_type: None,
            maps: Vec::new(),
            ptimes: Vec::new(),
            refclk: RefClock::Unspecified,
            direction: Direction::SendOnly,
        };
        assert(r@ =~= nothing_collected());
        r
    }

    /// Where the last mapping for a payload type is.
    fn mapping(&self, payload_type: u8) -> (r: Option<usize>)
        ensures
            match r {
                Some(at) => at < self.maps@.len() && map_for(self@.maps, payload_type) == Some(self.maps@[at as int]@),
                None => map_for(self@.maps, payload_type) is None,
            },
    {
        let mut n: usize = self.maps.len();
        let ghost maps = maps_view(self.maps@);
        assert(maps.take(n as int) =~= maps);
        while n > 0
            invariant
                n <= self.maps@.len(),
                maps == maps_view(self.maps@),
                map_for(maps, payload_type) == map_for(maps.take(n as int), payload_type),
            decreases n,
        {
            assert(maps.take(n as int).last() == self.maps@[n - 1]@);
            assert(maps.take(n as int).drop_last() =~= maps.take(n - 1));
            if self.maps[n - 1].payload_type == payload_type {
                return Some(n - 1);
            }
            n -= 1;
        }
        None
    }

    fn origin(&mut self, value: &[char])
        ensures
            final(self)@ == take_origin(old(self)@, value@),
    {
        let f = words_of(value);
        let ghost view = pieces_view(f@);
        assert(view.len() == f@.len());
        if f.len() >= 6 {
            assert(view[1] == f@[1]@ && view[2] == f@[2]@ && view[5] == f@[5]@);
            self.session_id = number_else(f[1].as_slice(), u64::MAX, 0);
            self.session_version = number_else(f[2].as_slice(), u64::MAX, 0);
            self.origin_addr = match parse_address(f[5].as_slice()) {
                Some(a) => a,
                None => 0,
            };
        }
    }

    fn connection(&mut self, value: &[char]) -> (r: Result<(), SdpError>)
        ensures
            match r {
                Ok(()) => take_connection(old(self)@, value@) == Ok::<Collected, SdpErrorView>(final(self)@),
                Err(e) => take_connection(old(self)@, value@) == Err::<Collected, SdpErrorView>(e@),
            },
    {
        let f = words_of(value);
        let ghost view = pieces_view(f@);
        assert(view.len() == f@.len());
        if f.len() < 3 {
            return Ok(());
        }
        assert(view[2] == f@[2]@);
        let p = split_at_each(f[2].as_slice(), '/');
        let ghost pieces = pieces_view(p@);
        proof {
            assert(pieces.len() == p@.len());
            lemma_split_nonempty(f@[2]@, '/');
            assert(pieces[0] == p@[0]@);
        }
        match parse_address(p[0].as_slice()) {
            None => Err(
                SdpError::Malformed { field: "connection address", value: text_of(p[0].as_slice()) },
            ),
            Some(a) => {
                self.address = Some(a);
                if p.len() >= 2 {
                    assert(pieces[1] == p@[1]@);
                    self.ttl = number_else(p[1].as_slice(), u8::MAX as u64, DEFAULT_TTL as u64) as u8;
                }
                Ok(())
            },
        }
    }

    fn media(&mut self, value: &[char]) -> (r: Result<(), SdpError>)
        ensures
            match r {
                Ok(()) => take_media(old(self)@, value@) == Ok::<Collected, SdpErrorView>(final(self)@),
                Err(e) => take_media(old(self)@, value@) == Err::<Collected, SdpErrorView>(e@),
            },
    {
        let f = words_of(value);
        let ghost view = pieces_view(f@);
        assert(view.len() == f@.len());
        if f.len() < 4 {
            return Ok(());
        }
        assert(view[0] == f@[0]@ && view[1] == f@[1]@ && view[3] == f@[3]@);
        if !is_text(f[0].as_slice(), "audio") {
            return Ok(());
        }
        let port: u16 = match parse_number(f[1].as_slice(), u16::MAX as u64) {
            Some(port) => port as u16,
            None => {
                return Err(SdpError::Malformed { field: "media port", value: text_of(f[1].as_slice()) });
            },
        };
        let payload_type: u8 = match parse_number(f[3].as_slice(), u8::MAX as u64) {
            Some(pt) => pt as u8,
            None => {
                return Err(SdpError::Malformed { field: "payload type", value: text_of(f[3].as_slice()) });
            },
        };
        self.port = Some(port);
        self.payload_type = Some(payload_type);
        Ok(())
    }

    fn attribute(&mut self, value: &[char])
        ensures
            final(self)@ == take_attribute(old(self)@, value@),
    {
        if let Some(rest) = rest_after(value, "rtpmap:") {
            if let Some(m) = parse_map(rest) {
                let ghost before = self.maps@;
                self.maps.push(m);
                assert(maps_view(self.maps@) =~= maps_view(before).push(m@));
            }
        } else if let Some(rest) = rest_after(value, "ptime:") {
            let ghost before = self.ptimes@;
            self.ptimes.push(text_of(trim(rest)));
            assert(texts_view(self.ptimes@) =~= texts_view(before).push(trimmed(rest@)));
        } else if let Some(rest) = rest_after(value, "ts-refclk:") {
            self.refclk = parse_refclk(trim(rest));
        } else if is_text(value, "sendonly") {
            self.direction = Direction::SendOnly;
        } else if is_text(value, "recvonly") {
            self.direction = Direction::RecvOnly;
        } else if is_text(value, "sendrecv") {
            self.direction = Direction::SendRecv;
        }
    }

    fn line(&mut self, raw: &[char]) -> (r: Result<(), SdpError>)
        ensures
            match r {
                Ok(()) => take_line(old(self)@, raw@) == Ok::<Collected, SdpErrorView>(final(self)@),
                Err(e) => take_line(old(self)@, raw@) == Err::<Collected, SdpErrorView>(e@),
            },
    {
        let line = without_returns(raw);
        let k: usize = find(line, '=');
        if k >= line.len() {
            return Ok(());
        }
        let key = part(line, 0, k);
        let value = part(line, k + 1, line.len());
        proof {
            assert(key@ =~= line@.take(k as int));
            assert(value@ =~= line@.skip(k + 1));
        }
        if is_text(key, "o") {
            self.origin(value);
        } else if is_text(key, "s") {
            self.session_name = text_of(value);
        } else if is_text(key, "c") {
            return self.connection(value);
        } else if is_text(key, "m") {
            return self.media(value);
        } else if is_text(key, "a") {
            self.attribute(value);
        }
        Ok(())
    }

    fn read(text: &str) -> (r: Result<Self, SdpError>)
        ensures
            match r {
                Ok(session) => collected(text@) == Ok::<Collected, SdpErrorView>(session@),
                Err(e) => collected(text@) == Err::<Collected, SdpErrorView>(e@),
            },
    {
        let chars = chars_of(text);
        let lines = split_at_each(chars.as_slice(), '\n');
        let ghost view = pieces_view(lines@);
        let mut session = Session::new();
        let mut i: usize = 0;
        assert(view.len() == lines@.len());
        while i < lines.len()
            invariant
                i <= lines@.len(),
                view == pieces_view(lines@),
                view == split(text@, '\n'),
                view.len() == lines@.len(),
                collect(view, i as int) == Ok::<Collected, SdpErrorView>(session@),
            decreases lines@.len() - i,
        {
            assert(view[i as int] == lines@[i as int]@);
            match session.line(lines[i].as_slice()) {
                Ok(()) => {},
                Err(e) => {
                    proof {
                        lemma_collect_stops(view, i + 1, view.len() as int);
                    }
                    return Err(e);
                },
            }
            i += 1;
        }
        Ok(session)
    }
}

/// The first malformed line decides.
proof fn lemma_collect_stops(lines: Seq<Seq<char>>, n: int, m: int)
    requires
        0 <= n <= m,
        collect(lines, n) is Err,
    ensures
        collect(lines, m) == collect(lines, n),
    decreases m - n,
{
    if n < m {
        lemma_collect_stops(lines, n, m - 1);
    }
}

} // verus!
