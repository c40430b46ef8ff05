//! PTPv2 message coding, per IEEE 1588-2008 clause 13.
//!
//! Only the messages of the delay request-response mechanism carry a body here. The
//! others are recognised so that they can be counted and ignored.

use vstd::prelude::*;
use vstd::string::StringExecFns;

use crate::bytes::{
    be_bytes, be_value, from_i64, from_i8, lemma_be_bytes_len, lemma_be_round_trip, lemma_radix_values,
    overwrite, push_be, radix, read_be, signed, splice, to_i16, to_i64, to_i8, unsigned,
};
use crate::text::{decimal, low_hex, push_decimal, push_low_hex};

verus! {

/// Fixed PTP header length.
pub const HEADER_LEN: usize = 34;

/// Length of a timestamp on the wire: 48-bit seconds, 32-bit nanoseconds.
pub const TIMESTAMP_LEN: usize = 10;

/// Length of an Announce body.
pub const ANNOUNCE_LEN: usize = 30;

/// Nanoseconds in a second.
pub const NANOS_PER_SECOND: u32 = 1_000_000_000;

#[derive(Clone, Copy, Debug, PartialEq, Eq, Structural)]
pub enum PtpError {
    /// The packet is this long, shorter than it has to be.
    TooShort(usize),
    /// The PTP version is this, and not 2.
    BadVersion(u8),
    /// A message of this type carries a body of this length, which is too short.
    TruncatedBody(u8, usize),
    /// The nanoseconds field is this, which is not below one second.
    BadTimestamp(u32),
}

/// What an error says.
pub open spec fn ptp_error_text(e: PtpError) -> Seq<char> {
    match e {
        PtpError::TooShort(n) => "packet is "@ + decimal(n as nat) + " bytes, shorter than the "@ + decimal(
            HEADER_LEN as nat,
        ) + "-byte PTP header"@,
        PtpError::BadVersion(v) => "PTP version is "@ + decimal(v as nat) + ", expected 2"@,
        PtpError::TruncatedBody(t, n) => "message type 0x"@ + low_hex(t) + " carries a "@ + decimal(n as nat)
            + "-byte body, which is too short"@,
        PtpError::BadTimestamp(n) => "nanoseconds field is "@ + decimal(n as nat)
            + ", which is not below one second"@,
    }
}

impl PtpError {
    /// What the error says.
    pub fn text(&self) -> (r: String)
        ensures
            r@ == ptp_error_text(*self),
    {
        match self {
            PtpError::TooShort(n) => {
                let mut out = String::from_str("packet is ");
                push_decimal(&mut out, *n as u64);
                out.append(" bytes, shorter than the ");
                push_decimal(&mut out, HEADER_LEN as u64);
                out.append("-byte PTP header");
                out
            },
            PtpError::BadVersion(v) => {
                let mut out = String::from_str("PTP version is ");
                push_decimal(&mut out, *v as u64);
                out.append(", expected 2");
                out
            },
            PtpError::TruncatedBody(t, n) => {
                let mut out = String::from_str("message type 0x");
                push_low_hex(&mut out, *t);
                out.append(" carries a ");
                push_decimal(&mut out, *n as u64);
                out.append("-byte body, which is too short");
                out
            },
            PtpError::BadTimestamp(n) => {
                let mut out = String::from_str("nanoseconds field is ");
                push_decimal(&mut out, *n as u64);
                out.append(", which is not below one second");
                out
            },
        }
    }
}

/// PTP message types (IEEE 1588-2008 table 19).
#[derive(Clone, Copy, Debug, PartialEq, Eq, Structural)]
pub enum MessageType {
    Sync,
    DelayReq,
    PdelayReq,
    PdelayResp,
    FollowUp,
    DelayResp,
    PdelayRespFollowUp,
    Announce,
    Signaling,
    Management,
    Unknown(u8),
}

/// The message type of a four-bit code.
pub open spec fn type_of_code(code: int) -> MessageType {
    if code == 0x0 {
        MessageType::Sync
    } else if code == 0x1 {
        MessageType::DelayReq
    } else if code == 0x2 {
        MessageType::PdelayReq
    } else if code == 0x3 {
        MessageType::PdelayResp
    } else if code == 0x8 {
        MessageType::FollowUp
    } else if code == 0x9 {
        MessageType::DelayResp
    } else if code == 0xA {
        MessageType::PdelayRespFollowUp
    } else if code == 0xB {
        MessageType::Announce
    } else if code == 0xC {
        MessageType::Signaling
    } else if code == 0xD {
        MessageType::Management
    } else {
        MessageType::Unknown(code as u8)
    }
}

impl MessageType {
    /// The four-bit code of a message type.
    pub open spec fn code(self) -> u8 {
        match self {
            MessageType::Sync => 0x0,
            MessageType::DelayReq => 0x1,
            MessageType::PdelayReq => 0x2,
            MessageType::PdelayResp => 0x3,
            MessageType::FollowUp => 0x8,
            MessageType::DelayResp => 0x9,
            MessageType::PdelayRespFollowUp => 0xA,
            MessageType::Announce => 0xB,
            MessageType::Signaling => 0xC,
            MessageType::Management => 0xD,
            MessageType::Unknown(v) => v % 16,
        }
    }

    /// A type that its code gives back.
    pub open spec fn canonical(self) -> bool {
        type_of_code(self.code() as int) == self
    }

    /// The type in the low four bits.
    pub fn from_bits(v: u8) -> (r: Self)
        ensures
            r == type_of_code((v % 16) as int),
    {
        match v % 16 {
            0x0 => MessageType::Sync,
            0x1 => MessageType::DelayReq,
            0x2 => MessageType::PdelayReq,
            0x3 => MessageType::PdelayResp,
            0x8 => MessageType::FollowUp,
            0x9 => MessageType::DelayResp,
            0xA => MessageType::PdelayRespFollowUp,
            0xB => MessageType::Announce,
            0xC => MessageType::Signaling,
            0xD => MessageType::Management,
            other => MessageType::Unknown(other),
        }
    }

    pub fn to_bits(self) -> (r: u8)
        ensures
            r == self.code(),
    {
        match self {
            MessageType::Sync => 0x0,
            MessageType::DelayReq => 0x1,
            MessageType::PdelayReq => 0x2,
            MessageType::PdelayResp => 0x3,
            MessageType::FollowUp => 0x8,
            MessageType::DelayResp => 0x9,
            MessageType::PdelayRespFollowUp => 0xA,
            MessageType::Announce => 0xB,
            MessageType::Signaling => 0xC,
            MessageType::Management => 0xD,
            MessageType::Unknown(v) => v % 16,
        }
    }

    /// Event messages are the ones that must be timestamped on the wire.
    pub fn is_event(self) -> (r: bool)
        ensures
            r == (self == MessageType::Sync || self == MessageType::DelayReq || self == MessageType::PdelayReq
                || self == MessageType::PdelayResp),
    {
        matches!(
            self,
            MessageType::Sync | MessageType::DelayReq | MessageType::PdelayReq | MessageType::PdelayResp
        )
    }
}

/// A PTP timestamp: seconds since the epoch, plus nanoseconds.
///
/// The full range does not fit in 64 bits of nanoseconds.
#[derive(Clone, Copy, Debug, PartialEq, Eq, PartialOrd, Ord, Structural)]
pub struct Timestamp {
    pub seconds: u64,
    pub nanos: u32,
}

impl Default for Timestamp {
    fn default() -> (r: Self)
        ensures
            r == (Timestamp { seconds: 0, nanos: 0 }),
    {
        Timestamp { seconds: 0, nanos: 0 }
    }
}

/// The nearest number that fits in 64 signed bits.
pub open spec fn saturated(v: int) -> int {
    if v < i64::MIN {
        i64::MIN as int
    } else if v > i64::MAX {
        i64::MAX as int
    } else {
        v
    }
}

impl Timestamp {
    /// Nanoseconds since the epoch.
    pub open spec fn total_nanos(self) -> int {
        self.seconds * 1_000_000_000 + self.nanos
    }

    /// A timestamp that has a wire form: 48 bits of seconds, less than a second of
    /// nanoseconds.
    pub open spec fn on_wire(self) -> bool {
        self.seconds < radix(6) && self.nanos < NANOS_PER_SECOND
    }

    /// The wire form.
    pub open spec fn wire(self) -> Seq<u8> {
        be_bytes(self.seconds as nat, 6) + be_bytes(self.nanos as nat, 4)
    }

    pub fn new(seconds: u64, nanos: u32) -> (r: Self)
        ensures
            r == (Timestamp { seconds, nanos }),
    {
        Timestamp { seconds, nanos }
    }

    /// Whether the difference from an earlier timestamp can be told.
    pub open spec fn near(self, earlier: Self) -> bool {
        i64::MIN <= self.total_nanos() - earlier.total_nanos() <= i64::MAX
    }

    /// Whether the difference from an earlier timestamp can be told in 64 bits. One that
    /// cannot means that one of the two is nonsense.
    pub fn is_near(self, earlier: Self) -> (r: bool)
        ensures
            r == self.near(earlier),
    {
        let total: i128 = self.apart(earlier);
        i64::MIN as i128 <= total && total <= i64::MAX as i128
    }

    fn apart(self, earlier: Self) -> (r: i128)
        ensures
            r == self.total_nanos() - earlier.total_nanos(),
    {
        let secs: i128 = self.seconds as i128 - earlier.seconds as i128;
        let nanos: i128 = self.nanos as i128 - earlier.nanos as i128;
        secs * 1_000_000_000 + nanos
    }

    /// Difference in nanoseconds. Saturates rather than wrapping: a difference that does
    /// not fit means that one of the two is nonsense, and a saturated value is a reading
    /// that the servo rejects, where it would believe a wrapped one.
    pub fn diff_nanos(self, earlier: Self) -> (r: i64)
        ensures
            r == saturated(self.total_nanos() - earlier.total_nanos()),
    {
        let total: i128 = self.apart(earlier);
        if total < i64::MIN as i128 {
            i64::MIN
        } else if total > i64::MAX as i128 {
            i64::MAX
        } else {
            total as i64
        }
    }

    /// Write the wire form at the start of a buffer.
    pub fn write(&self, out: &mut [u8])
        requires
            old(out)@.len() >= TIMESTAMP_LEN,
        ensures
            final(out)@ == splice(old(out)@, 0, self.wire()),
    {
        let mut w: Vec<u8> = Vec::new();
        push_be(&mut w, self.seconds, 6);
        push_be(&mut w, self.nanos as u64, 4);
        proof {
            lemma_be_bytes_len(self.seconds as nat, 6);
            lemma_be_bytes_len(self.nanos as nat, 4);
            assert(w@ =~= self.wire());
        }
        overwrite(out, 0, w.as_slice());
    }

    /// Read the wire form at the start of a buffer.
    pub fn parse(buf: &[u8]) -> (r: Result<Self, PtpError>)
        ensures
            match r {
                Ok(t) => timestamp_error(buf@) is None && t == timestamp_at(buf@),
                Err(e) => timestamp_error(buf@) == Some(e),
            },
    {
        if buf.len() < TIMESTAMP_LEN {
            return Err(PtpError::TooShort(buf.len()));
        }
        proof {
            lemma_radix_values();
        }
        let seconds: u64 = read_be(buf, 0, 6);
        let nanos: u32 = read_be(buf, 6, 4) as u32;
        if nanos >= NANOS_PER_SECOND {
            return Err(PtpError::BadTimestamp(nanos));
        }
        Ok(Timestamp { seconds, nanos })
    }
}

/// Why a buffer does not start with a timestamp.
pub open spec fn timestamp_error(buf: Seq<u8>) -> Option<PtpError> {
    if buf.len() < TIMESTAMP_LEN {
        Some(PtpError::TooShort(buf.len() as usize))
    } else if be_value(buf.subrange(6, 10)) >= NANOS_PER_SECOND {
        Some(PtpError::BadTimestamp(be_value(buf.subrange(6, 10)) as u32))
    } else {
        None
    }
}

/// The timestamp at the start of a buffer.
pub open spec fn timestamp_at(buf: Seq<u8>) -> Timestamp {
    Timestamp {
        seconds: be_value(buf.subrange(0, 6)) as u64,
        nanos: be_value(buf.subrange(6, 10)) as u32,
    }
}

/// The 8-byte identity of a clock, usually derived from a MAC address.
#[derive(Clone, Copy, Debug, PartialEq, Eq, PartialOrd, Ord, Hash)]
pub struct ClockIdentity(pub [u8; 8]);

impl View for ClockIdentity {
    type V = Seq<u8>;

    open spec fn view(&self) -> Seq<u8> {
        self.0@
    }
}

/// Two upper-case hexadecimal digits.
pub open spec fn hex_pair(b: u8) -> Seq<char> {
    seq![hex_digit((b / 16) as int), hex_digit((b % 16) as int)]
}

pub open spec fn hex_digit(d: int) -> char {
    if d < 10 {
        ('0' as int + d) as char
    } else {
        ('A' as int + d - 10) as char
    }
}

/// Bytes as hexadecimal pairs joined by hyphens.
pub open spec fn hyphenated(s: Seq<u8>) -> Seq<char>
    decreases s.len(),
{
    if s.len() == 0 {
        Seq::empty()
    } else if s.len() == 1 {
        hex_pair(s[0])
    } else {
        hyphenated(s.drop_last()) + seq!['-'] + hex_pair(s.last())
    }
}

fn hex_text(d: u8) -> (r: &'static str)
    requires
        d < 16,
    ensures
        r@ == seq![hex_digit(d as int)],
{
    proof {
        reveal_strlit("0");
        reveal_strlit("1");
        reveal_strlit("2");
        reveal_strlit("3");
        reveal_strlit("4");
        reveal_strlit("5");
        reveal_strlit("6");
        reveal_strlit("7");
        reveal_strlit("8");
        reveal_strlit("9");
        reveal_strlit("A");
        reveal_strlit("B");
        reveal_strlit("C");
        reveal_strlit("D");
        reveal_strlit("E");
        reveal_strlit("F");
    }
    match d {
        0 => "0",
        1 => "1",
        2 => "2",
        3 => "3",
        4 => "4",
        5 => "5",
        6 => "6",
        7 => "7",
        8 => "8",
        9 => "9",
        10 => "A",
        11 => "B",
        12 => "C",
        13 => "D",
        14 => "E",
        _ => "F",
    }
}

impl Default for ClockIdentity {
    fn default() -> (r: Self)
        ensures
            r@ == Seq::new(8, |i: int| 0u8),
    {
        let r = ClockIdentity([0, 0, 0, 0, 0, 0, 0, 0]);
        assert(r@ =~= Seq::new(8, |i: int| 0u8));
        r
    }
}

impl ClockIdentity {
    /// Build the conventional identity from a MAC: `xx xx xx FF FE xx xx xx`.
    pub fn from_mac(mac: [u8; 6]) -> (r: Self)
        ensures
            r@ == seq![mac@[0], mac@[1], mac@[2], 0xFFu8, 0xFEu8, mac@[3], mac@[4], mac@[5]],
    {
        let r = ClockIdentity([mac[0], mac[1], mac[2], 0xFF, 0xFE, mac[3], mac[4], mac[5]]);
        assert(r@ =~= seq![mac@[0], mac@[1], mac@[2], 0xFFu8, 0xFEu8, mac@[3], mac@[4], mac@[5]]);
        r
    }

    /// The identity as text, such as `00-1D-C1-FF-FE-12-34-56`.
    pub fn text(&self) -> (r: String)
        ensures
            r@ == hyphenated(self@),
    {
        let mut out = String::new();
        let mut i: usize = 0;
        while i < 8
            invariant
                i <= 8,
                out@ == hyphenated(self@.take(i as int)),
            decreases 8 - i,
        {
            let ghost before = out@;
            if i > 0 {
                proof {
                    reveal_strlit("-");
                    assert("-"@ =~= seq!['-']);
                }
                out.append("-");
            }
            let b: u8 = self.0[i];
            out.append(hex_text(b / 16));
            out.append(hex_text(b % 16));
            proof {
                assert(self@.take(i + 1).drop_last() =~= self@.take(i as int));
                assert(hex_pair(b) =~= seq![hex_digit((b / 16) as int)] + seq![hex_digit((b % 16) as int)]);
                if i == 0 {
                    assert(out@ =~= hex_pair(b));
                } else {
                    assert(out@ =~= before + seq!['-'] + hex_pair(b));
                }
            }
            i += 1;
        }
        assert(self@.take(8) =~= self@);
        out
    }

    /// Whether two identities are the same.
    pub fn same(&self, other: &ClockIdentity) -> (r: bool)
        ensures
            r == (*self == *other),
            r == (self@ == other@),
    {
        let mut i: usize = 0;
        while i < 8
            invariant
                i <= 8,
                forall|j: int| 0 <= j < i ==> self@[j] == other@[j],
            decreases 8 - i,
        {
            if self.0[i] != other.0[i] {
                assert(self@[i as int] != other@[i as int]);
                return false;
            }
            i += 1;
        }
        proof {
            assert(self@ =~= other@);
            lemma_identity_ext(*self, *other);
        }
        true
    }
}

/// Identities with the same bytes are the same.
pub proof fn lemma_identity_ext(a: ClockIdentity, b: ClockIdentity)
    requires
        a@ == b@,
    ensures
        a == b,
{
    assert forall|j: int| 0 <= j < 8 implies a.0[j] == b.0[j] by {
        assert(a@[j] == b@[j]);
    }
    vstd::array::axiom_array_ext_equal(a.0, b.0);
    assert(a.0 =~= b.0);
}

/// Which port of which clock a message came from.
#[derive(Clone, Copy, Debug, PartialEq, Eq, PartialOrd, Ord, Hash)]
pub struct PortIdentity {
    pub clock: ClockIdentity,
    pub port: u16,
}

impl Default for PortIdentity {
    fn default() -> (r: Self)
        ensures
            r.clock@ == Seq::new(8, |i: int| 0u8),
            r.port == 0,
    {
        PortIdentity { clock: ClockIdentity::default(), port: 0 }
    }
}

impl PortIdentity {
    /// The wire form: the clock, then the port.
    pub open spec fn wire(self) -> Seq<u8> {
        self.clock@ + be_bytes(self.port as nat, 2)
    }

    /// Whether two ports are the same.
    pub fn same(&self, other: &PortIdentity) -> (r: bool)
        ensures
            r == (*self == *other),
    {
        self.port == other.port && self.clock.same(&other.clock)
    }

    /// Write the wire form at the start of a buffer.
    pub fn write(&self, out: &mut [u8])
        requires
            old(out)@.len() >= 10,
        ensures
            final(out)@ == splice(old(out)@, 0, self.wire()),
    {
        let mut w: Vec<u8> = Vec::new();
        push_identity(&mut w, self);
        proof {
            lemma_be_bytes_len(self.port as nat, 2);
            assert(w@ =~= self.wire());
        }
        overwrite(out, 0, w.as_slice());
    }

    /// Read the wire form at the start of a buffer.
    pub fn parse(buf: &[u8]) -> (r: Result<Self, PtpError>)
        ensures
            match r {
                Ok(p) => buf@.len() >= 10 && port_is(p, buf@.subrange(0, 10)),
                Err(e) => buf@.len() < 10 && e == PtpError::TooShort(buf@.len() as usize),
            },
    {
        if buf.len() < 10 {
            return Err(PtpError::TooShort(buf.len()));
        }
        Ok(read_port(buf, 0))
    }
}

/// The port identity that ten bytes spell.
pub open spec fn port_is(p: PortIdentity, bytes: Seq<u8>) -> bool {
    p.clock@ == bytes.subrange(0, 8) && p.port == be_value(bytes.subrange(8, 10))
}

/// Reads eight bytes.
fn read_clock(buf: &[u8], at: usize) -> (r: ClockIdentity)
    requires
        at + 8 <= buf@.len(),
    ensures
        r@ == buf@.subrange(at as int, at + 8),
{
    assert(buf.len() <= usize::MAX);
    let r = ClockIdentity(
        [
            buf[at],
            buf[at + 1],
            buf[at + 2],
            buf[at + 3],
            buf[at + 4],
            buf[at + 5],
            buf[at + 6],
            buf[at + 7],
        ],
    );
    assert(r@ =~= buf@.subrange(at as int, at + 8));
    r
}

fn read_port(buf: &[u8], at: usize) -> (r: PortIdentity)
    requires
        at + 10 <= buf@.len(),
    ensures
        port_is(r, buf@.subrange(at as int, at + 10)),
{
    assert(buf.len() <= usize::MAX);
    let clock = read_clock(buf, at);
    let port: u64 = read_be(buf, at + 8, 2);
    proof {
        lemma_radix_values();
        let ten = buf@.subrange(at as int, at + 10);
        assert(ten.subrange(0, 8) =~= buf@.subrange(at as int, at + 8));
        assert(ten.subrange(8, 10) =~= buf@.subrange(at + 8, at + 10));
    }
    PortIdentity { clock, port: port as u16 }
}

fn push_identity(out: &mut Vec<u8>, p: &PortIdentity)
    ensures
        final(out)@ == old(out)@ + p.wire(),
{
    let mut i: usize = 0;
    while i < 8
        invariant
            i <= 8,
            out@ == old(out)@ + p.clock@.take(i as int),
        decreases 8 - i,
    {
        out.push(p.clock.0[i]);
        i += 1;
        assert(out@ =~= old(out)@ + p.clock@.take(i as int));
    }
    assert(p.clock@.take(8) =~= p.clock@);
    push_be(out, p.port as u64, 2);
    assert(out@ =~= old(out)@ + p.wire());
}

/// Header flags that matter to a slave.
#[derive(Clone, Copy, Debug, PartialEq, Eq, Structural)]
pub struct Flags {
    /// The sender is a two-step clock: the real transmit time arrives in a Follow_Up, and
    /// the Sync's own timestamp must be ignored.
    pub two_step: bool,
    pub unicast: bool,
    pub leap61: bool,
    pub leap59: bool,
    pub utc_offset_valid: bool,
    pub ptp_timescale: bool,
    pub time_traceable: bool,
    pub frequency_traceable: bool,
}

/// Whether the bit of this weight is set.
pub open spec fn weight_set(b: u8, weight: int) -> bool {
    (b as int / weight) % 2 == 1
}

pub open spec fn weight_if(on: bool, weight: int) -> int {
    if on {
        weight
    } else {
        0
    }
}

impl Default for Flags {
    fn default() -> (r: Self)
        ensures
            r == no_flags(),
    {
        Flags {
            two_step: false,
            unicast: false,
            leap61: false,
            leap59: false,
            utc_offset_valid: false,
            ptp_timescale: false,
            time_traceable: false,
            frequency_traceable: false,
        }
    }
}

pub open spec fn no_flags() -> Flags {
    Flags {
        two_step: false,
        unicast: false,
        leap61: false,
        leap59: false,
        utc_offset_valid: false,
        ptp_timescale: false,
        time_traceable: false,
        frequency_traceable: false,
    }
}

/// The flags that two bytes spell.
pub open spec fn flags_of(first: u8, second: u8) -> Flags {
    Flags {
        two_step: weight_set(first, 2),
        unicast: weight_set(first, 4),
        leap61: weight_set(second, 1),
        leap59: weight_set(second, 2),
        utc_offset_valid: weight_set(second, 4),
        ptp_timescale: weight_set(second, 8),
        time_traceable: weight_set(second, 16),
        frequency_traceable: weight_set(second, 32),
    }
}

impl Flags {
    /// The first flag byte.
    pub open spec fn first(self) -> int {
        weight_if(self.two_step, 2) + weight_if(self.unicast, 4)
    }

    /// The second flag byte.
    pub open spec fn second(self) -> int {
        weight_if(self.leap61, 1) + weight_if(self.leap59, 2) + weight_if(self.utc_offset_valid, 4) + weight_if(
            self.ptp_timescale,
            8,
        ) + weight_if(self.time_traceable, 16) + weight_if(self.frequency_traceable, 32)
    }

    pub fn parse(bytes: [u8; 2]) -> (r: Self)
        ensures
            r == flags_of(bytes@[0], bytes@[1]),
    {
        let a: u8 = bytes[0];
        let b: u8 = bytes[1];
        Flags {
            two_step: (a / 2) % 2 == 1,
            unicast: (a / 4) % 2 == 1,
            leap61: b % 2 == 1,
            leap59: (b / 2) % 2 == 1,
            utc_offset_valid: (b / 4) % 2 == 1,
            ptp_timescale: (b / 8) % 2 == 1,
            time_traceable: (b / 16) % 2 == 1,
            frequency_traceable: (b / 32) % 2 == 1,
        }
    }

    pub fn write(self) -> (r: [u8; 2])
        ensures
            r@ == seq![self.first() as u8, self.second() as u8],
    {
        let mut a: u8 = 0;
        let mut b: u8 = 0;
        if self.two_step {
            a += 2;
        }
        if self.unicast {
            a += 4;
        }
        if self.leap61 {
            b += 1;
        }
        if self.leap59 {
            b += 2;
        }
        if self.utc_offset_valid {
            b += 4;
        }
        if self.ptp_timescale {
            b += 8;
        }
        if self.time_traceable {
            b += 16;
        }
        if self.frequency_traceable {
            b += 32;
        }
        let r = [a, b];
        assert(r@ =~= seq![self.first() as u8, self.second() as u8]);
        r
    }
}

/// The common header on every PTP message.
#[derive(Clone, Copy, Debug, PartialEq, Eq)]
pub struct Header {
    pub message_type: MessageType,
    pub domain: u8,
    pub flags: Flags,
    /// Accumulated residence and asymmetry correction, in nanoseconds scaled by 2^16.
    pub correction_subnanos: i64,
    pub source: PortIdentity,
    pub sequence_id: u16,
    pub log_message_interval: i8,
}

/// Why a buffer does not start with a header.
pub open spec fn header_error(buf: Seq<u8>) -> Option<PtpError> {
    if buf.len() < HEADER_LEN {
        Some(PtpError::TooShort(buf.len() as usize))
    } else if buf[1] % 16 != 2 {
        Some(PtpError::BadVersion(buf[1] % 16))
    } else {
        None
    }
}

/// The header that a buffer starts with.
pub open spec fn header_is(h: Header, buf: Seq<u8>) -> bool {
    &&& h.message_type == type_of_code((buf[0] % 16) as int)
    &&& h.domain == buf[4]
    &&& h.flags == flags_of(buf[6], buf[7])
    &&& h.correction_subnanos == signed(be_value(buf.subrange(8, 16)), 8)
    &&& port_is(h.source, buf.subrange(20, 30))
    &&& h.sequence_id == be_value(buf.subrange(30, 32))
    &&& h.log_message_interval == signed(buf[33] as nat, 1)
}

impl Header {
    /// Correction field in whole nanoseconds, rounded down.
    pub open spec fn correction(self) -> int {
        self.correction_subnanos as int / 65536
    }

    /// The wire form of a header for a message of this length with this control field.
    pub open spec fn wire(self, length: u16, control: u8) -> Seq<u8> {
        seq![self.message_type.code(), 2u8] + be_bytes(length as nat, 2) + seq![self.domain, 0u8] + seq![
            self.flags.first() as u8,
            self.flags.second() as u8,
        ] + be_bytes(unsigned(self.correction_subnanos as int, 8), 8) + be_bytes(0, 4) + self.source.wire()
            + be_bytes(self.sequence_id as nat, 2) + seq![
            control,
            unsigned(self.log_message_interval as int, 1) as u8,
        ]
    }

    /// Correction field in whole nanoseconds.
    pub fn correction_nanos(&self) -> (r: i64)
        ensures
            r == self.correction(),
    {
        let v: i64 = self.correction_subnanos;
        if v >= 0 {
            v / 65536
        } else {
            -1 - (-1 - v) / 65536
        }
    }

    pub fn parse(buf: &[u8]) -> (r: Result<Self, PtpError>)
        ensures
            match r {
                Ok(h) => header_error(buf@) is None && header_is(h, buf@),
                Err(e) => header_error(buf@) == Some(e),
            },
    {
        if buf.len() < HEADER_LEN {
            return Err(PtpError::TooShort(buf.len()));
        }
        let version: u8 = buf[1] % 16;
        if version != 2 {
            return Err(PtpError::BadVersion(version));
        }
        proof {
            lemma_radix_values();
        }
        let correction: u64 = read_be(buf, 8, 8);
        let sequence: u64 = read_be(buf, 30, 2);
        Ok(
            Header {
                message_type: MessageType::from_bits(buf[0]),
                domain: buf[4],
                flags: Flags::parse([buf[6], buf[7]]),
                correction_subnanos: to_i64(correction),
                source: read_port(buf, 20),
                sequence_id: sequence as u16,
                log_message_interval: to_i8(buf[33]),
            },
        )
    }

    /// Write the wire form at the start of a buffer.
    pub fn write(&self, length: u16, control: u8, out: &mut [u8])
        requires
            old(out)@.len() >= HEADER_LEN,
        ensures
            final(out)@ == splice(old(out)@, 0, self.wire(length, control)),
    {
        let mut w: Vec<u8> = Vec::new();
        w.push(self.message_type.to_bits());
        w.push(2);
        push_be(&mut w, length as u64, 2);
        w.push(self.domain);
        w.push(0);
        let f = self.flags.write();
        w.push(f[0]);
        w.push(f[1]);
        push_be(&mut w, from_i64(self.correction_subnanos), 8);
        push_be(&mut w, 0, 4);
        push_identity(&mut w, &self.source);
        push_be(&mut w, self.sequence_id as u64, 2);
        w.push(control);
        w.push(from_i8(self.log_message_interval));
        proof {
            assert(f@[0] == self.flags.first() as u8);
            assert(f@[1] == self.flags.second() as u8);
            lemma_header_len(*self, length, control);
            assert(w@ =~= self.wire(length, control));
        }
        overwrite(out, 0, w.as_slice());
    }
}

/// A header's wire form has the fixed length.
pub proof fn lemma_header_len(h: Header, length: u16, control: u8)
    ensures
        h.wire(length, control).len() == HEADER_LEN,
{
    lemma_be_bytes_len(length as nat, 2);
    lemma_be_bytes_len(unsigned(h.correction_subnanos as int, 8), 8);
    lemma_be_bytes_len(0, 4);
    lemma_be_bytes_len(h.source.port as nat, 2);
    lemma_be_bytes_len(h.sequence_id as nat, 2);
}

/// How good a clock says it is (IEEE 1588-2008 clause 8.6.2.2-4).
#[derive(Clone, Copy, Debug, PartialEq, Eq, Structural)]
pub struct ClockQuality {
    pub class: u8,
    pub accuracy: u8,
    pub offset_scaled_log_variance: u16,
}

impl Default for ClockQuality {
    fn default() -> (r: Self)
        ensures
            r == (ClockQuality { class: 0, accuracy: 0, offset_scaled_log_variance: 0 }),
    {
        ClockQuality { class: 0, accuracy: 0, offset_scaled_log_variance: 0 }
    }
}

/// The contents of an Announce.
#[derive(Clone, Copy, Debug, PartialEq, Eq)]
pub struct Announce {
    pub current_utc_offset: i16,
    pub grandmaster_priority1: u8,
    pub grandmaster_quality: ClockQuality,
    pub grandmaster_priority2: u8,
    pub grandmaster_identity: ClockIdentity,
    pub steps_removed: u16,
    pub time_source: u8,
}

/// The Announce that a body starts with.
pub open spec fn announce_is(a: Announce, body: Seq<u8>) -> bool {
    &&& a.current_utc_offset == signed(be_value(body.subrange(10, 12)), 2)
    &&& a.grandmaster_priority1 == body[13]
    &&& a.grandmaster_quality.class == body[14]
    &&& a.grandmaster_quality.accuracy == body[15]
    &&& a.grandmaster_quality.offset_scaled_log_variance == be_value(body.subrange(16, 18))
    &&& a.grandmaster_priority2 == body[18]
    &&& a.grandmaster_identity@ == body.subrange(19, 27)
    &&& a.steps_removed == be_value(body.subrange(27, 29))
    &&& a.time_source == body[29]
}

/// What a message carries after its header.
#[derive(Clone, Debug, PartialEq)]
pub enum Body {
    /// Sync and Delay_Req both carry only an origin timestamp.
    Sync { origin: Timestamp },
    DelayReq { origin: Timestamp },
    FollowUp { precise_origin: Timestamp },
    DelayResp { receive: Timestamp, requesting: PortIdentity },
    Announce(Box<Announce>),
    /// Recognised but not acted on.
    Other,
}

/// A parsed PTP message.
#[derive(Clone, Debug, PartialEq)]
pub struct Message {
    pub header: Header,
    pub body: Body,
}

/// How long the body of a message must at least be.
pub open spec fn body_need(t: MessageType) -> int {
    match t {
        MessageType::Sync => 10,
        MessageType::DelayReq => 10,
        MessageType::FollowUp => 10,
        MessageType::DelayResp => 20,
        MessageType::Announce => 30,
        _ => 0,
    }
}

/// Whether the body of a message starts with a timestamp that is read.
pub open spec fn has_timestamp(t: MessageType) -> bool {
    t == MessageType::Sync || t == MessageType::DelayReq || t == MessageType::FollowUp || t
        == MessageType::DelayResp
}

/// Why a body cannot be read.
pub open spec fn body_error(t: MessageType, body: Seq<u8>) -> Option<PtpError> {
    if body.len() < body_need(t) {
        Some(PtpError::TruncatedBody(t.code(), body.len() as usize))
    } else if has_timestamp(t) {
        timestamp_error(body)
    } else {
        None
    }
}

/// The body that bytes spell.
pub open spec fn body_is(b: Body, t: MessageType, body: Seq<u8>) -> bool {
    match t {
        MessageType::Sync => b == (Body::Sync { origin: timestamp_at(body) }),
        MessageType::DelayReq => b == (Body::DelayReq { origin: timestamp_at(body) }),
        MessageType::FollowUp => b == (Body::FollowUp { precise_origin: timestamp_at(body) }),
        MessageType::DelayResp => {
            &&& b is DelayResp
            &&& b->receive == timestamp_at(body)
            &&& port_is(b->requesting, body.subrange(10, 20))
        },
        MessageType::Announce => b is Announce && announce_is(*b->Announce_0, body),
        _ => b == Body::Other,
    }
}

/// Why a buffer is not a message.
pub open spec fn message_error(buf: Seq<u8>) -> Option<PtpError> {
    match header_error(buf) {
        Some(e) => Some(e),
        None => body_error(type_of_code((buf[0] % 16) as int), buf.skip(HEADER_LEN as int)),
    }
}

/// The message that a buffer holds.
pub open spec fn message_is(m: Message, buf: Seq<u8>) -> bool {
    &&& header_is(m.header, buf)
    &&& body_is(m.body, m.header.message_type, buf.skip(HEADER_LEN as int))
}

impl Message {
    pub fn parse(buf: &[u8]) -> (r: Result<Self, PtpError>)
        ensures
            match r {
                Ok(m) => message_error(buf@) is None && message_is(m, buf@),
                Err(e) => message_error(buf@) == Some(e),
            },
    {
        let header = match Header::parse(buf) {
            Ok(h) => h,
            Err(e) => {
                return Err(e);
            },
        };
        let rest = vstd::slice::slice_subrange(buf, HEADER_LEN, buf.len());
        assert(rest@ =~= buf@.skip(HEADER_LEN as int));
        match parse_body(header.message_type, rest) {
            Ok(body) => Ok(Message { header, body }),
            Err(e) => Err(e),
        }
    }
}

fn parse_body(t: MessageType, rest: &[u8]) -> (r: Result<Body, PtpError>)
    ensures
        match r {
            Ok(b) => body_error(t, rest@) is None && body_is(b, t, rest@),
            Err(e) => body_error(t, rest@) == Some(e),
        },
{
    let need: usize = match t {
        MessageType::Sync => TIMESTAMP_LEN,
        MessageType::DelayReq => TIMESTAMP_LEN,
        MessageType::FollowUp => TIMESTAMP_LEN,
        MessageType::DelayResp => TIMESTAMP_LEN + 10,
        MessageType::Announce => ANNOUNCE_LEN,
        _ => 0,
    };
    if rest.len() < need {
        return Err(PtpError::TruncatedBody(t.to_bits(), rest.len()));
    }
    match t {
        MessageType::Sync => match Timestamp::parse(rest) {
            Ok(origin) => Ok(Body::Sync { origin }),
            Err(e) => Err(e),
        },
        MessageType::DelayReq => match Timestamp::parse(rest) {
            Ok(origin) => Ok(Body::DelayReq { origin }),
            Err(e) => Err(e),
        },
        MessageType::FollowUp => match Timestamp::parse(rest) {
            Ok(precise_origin) => Ok(Body::FollowUp { precise_origin }),
            Err(e) => Err(e),
        },
        MessageType::DelayResp => match Timestamp::parse(rest) {
            Ok(receive) => Ok(Body::DelayResp { receive, requesting: read_port(rest, 10) }),
            Err(e) => Err(e),
        },
        MessageType::Announce => Ok(Body::Announce(Box::new(parse_announce(rest)))),
        _ => Ok(Body::Other),
    }
}

fn parse_announce(rest: &[u8]) -> (a: Announce)
    requires
        rest@.len() >= ANNOUNCE_LEN,
    ensures
        announce_is(a, rest@),
{
    proof {
        lemma_radix_values();
    }
    let utc: u64 = read_be(rest, 10, 2);
    let variance: u64 = read_be(rest, 16, 2);
    let steps: u64 = read_be(rest, 27, 2);
    Announce {
        current_utc_offset: to_i16(utc as u16),
        grandmaster_priority1: rest[13],
        grandmaster_quality: ClockQuality {
            class: rest[14],
            accuracy: rest[15],
            offset_scaled_log_variance: variance as u16,
        },
        grandmaster_priority2: rest[18],
        grandmaster_identity: read_clock(rest, 19),
        steps_removed: steps as u16,
        time_source: rest[29],
    }
}

/// The header of a Delay_Req.
pub open spec fn delay_req_header(source: PortIdentity, domain: u8, sequence_id: u16) -> Header {
    Header {
        message_type: MessageType::DelayReq,
        domain,
        flags: no_flags(),
        correction_subnanos: 0,
        source,
        sequence_id,
        log_message_interval: 0x7f,
    }
}

/// The wire form of a Delay_Req.
pub open spec fn delay_req_wire(source: PortIdentity, domain: u8, sequence_id: u16) -> Seq<u8> {
    delay_req_header(source, domain, sequence_id).wire(44, 1) + (Timestamp { seconds: 0, nanos: 0 }).wire()
}

/// Build a Delay_Req, the only message a slave has to transmit.
///
/// Its timestamp is zero: what matters is the instant it actually left, which the sender
/// records locally.
pub fn write_delay_req(source: PortIdentity, domain: u8, sequence_id: u16, out: &mut [u8; 44])
    ensures
        final(out)@ == delay_req_wire(source, domain, sequence_id),
{
    let header = Header {
        message_type: MessageType::DelayReq,
        domain,
        flags: Flags::default(),
        correction_subnanos: 0,
        source,
        sequence_id,
        log_message_interval: 0x7f,
    };
    let mut head = [0u8; HEADER_LEN];
    header.write(44, 1, &mut head);
    let mut tail = [0u8; TIMESTAMP_LEN];
    Timestamp::default().write(&mut tail);
    proof {
        lemma_header_len(header, 44, 1);
        lemma_timestamp_len(Timestamp { seconds: 0, nanos: 0 });
        assert(head@ =~= header.wire(44, 1));
        assert(tail@ =~= (Timestamp { seconds: 0, nanos: 0 }).wire());
    }
    overwrite(out, 0, &head);
    overwrite(out, HEADER_LEN, &tail);
    assert(out@ =~= delay_req_wire(source, domain, sequence_id));
}

pub proof fn lemma_timestamp_len(t: Timestamp)
    ensures
        t.wire().len() == TIMESTAMP_LEN,
{
    lemma_be_bytes_len(t.seconds as nat, 6);
    lemma_be_bytes_len(t.nanos as nat, 4);
}

// What writing and reading give back.

/// A timestamp that has a wire form is read back as it was written.
pub proof fn law_timestamp_round_trip(t: Timestamp, rest: Seq<u8>)
    requires
        t.on_wire(),
    ensures
        timestamp_error(t.wire() + rest) is None,
        timestamp_at(t.wire() + rest) == t,
{
    let buf = t.wire() + rest;
    lemma_be_bytes_len(t.seconds as nat, 6);
    lemma_be_bytes_len(t.nanos as nat, 4);
    assert(buf.subrange(0, 6) =~= be_bytes(t.seconds as nat, 6));
    assert(buf.subrange(6, 10) =~= be_bytes(t.nanos as nat, 4));
    lemma_be_round_trip(t.seconds as nat, 6);
    lemma_be_round_trip(t.nanos as nat, 4);
    lemma_radix_values();
}

/// A port identity is read back as it was written.
pub proof fn law_port_round_trip(p: PortIdentity, q: PortIdentity)
    requires
        port_is(q, p.wire()),
    ensures
        q == p,
{
    lemma_be_bytes_len(p.port as nat, 2);
    assert(p.wire().subrange(0, 8) =~= p.clock@);
    assert(p.wire().subrange(8, 10) =~= be_bytes(p.port as nat, 2));
    lemma_be_round_trip(p.port as nat, 2);
    lemma_radix_values();
    lemma_identity_ext(p.clock, q.clock);
}

proof fn lemma_flags_round_trip(f: Flags)
    ensures
        flags_of(f.first() as u8, f.second() as u8) == f,
{
}

proof fn lemma_signed_round_trip(v: int, n: nat)
    requires
        -(radix(n) as int) <= 2 * v < radix(n),
    ensures
        signed(unsigned(v, n), n) == v,
        unsigned(v, n) < radix(n),
{
}

/// A header is read back as it was written, whatever follows it.
pub proof fn law_header_round_trip(h: Header, length: u16, control: u8, rest: Seq<u8>, g: Header)
    requires
        h.message_type.canonical(),
        header_is(g, h.wire(length, control) + rest),
    ensures
        header_error(h.wire(length, control) + rest) is None,
        g == h,
{
    let buf = h.wire(length, control) + rest;
    let correction = unsigned(h.correction_subnanos as int, 8);
    lemma_header_len(h, length, control);
    lemma_be_bytes_len(length as nat, 2);
    lemma_be_bytes_len(correction, 8);
    lemma_be_bytes_len(0, 4);
    lemma_be_bytes_len(h.source.port as nat, 2);
    lemma_be_bytes_len(h.sequence_id as nat, 2);
    lemma_radix_values();
    assert(h.source.wire().len() == 10);
    assert(buf.subrange(8, 16) =~= be_bytes(correction, 8));
    assert(buf.subrange(20, 30) =~= h.source.wire());
    assert(buf.subrange(30, 32) =~= be_bytes(h.sequence_id as nat, 2));
    lemma_signed_round_trip(h.correction_subnanos as int, 8);
    lemma_signed_round_trip(h.log_message_interval as int, 1);
    lemma_be_round_trip(correction, 8);
    lemma_be_round_trip(h.sequence_id as nat, 2);
    law_port_round_trip(h.source, g.source);
    lemma_flags_round_trip(h.flags);
    assert(buf[0] == h.message_type.code());
    assert(buf[0] % 16 == buf[0]);
    assert(buf[33] == unsigned(h.log_message_interval as int, 1) as u8);
}

/// A Delay_Req is read back with its source, domain and sequence, and a zero timestamp.
pub proof fn law_delay_req_parses_back(source: PortIdentity, domain: u8, sequence_id: u16, m: Message)
    requires
        message_is(m, delay_req_wire(source, domain, sequence_id)),
    ensures
        message_error(delay_req_wire(source, domain, sequence_id)) is None,
        m.header == delay_req_header(source, domain, sequence_id),
        m.body == (Body::DelayReq { origin: Timestamp { seconds: 0, nanos: 0 } }),
{
    let h = delay_req_header(source, domain, sequence_id);
    let zero = Timestamp { seconds: 0, nanos: 0 };
    let buf = delay_req_wire(source, domain, sequence_id);
    law_header_round_trip(h, 44, 1, zero.wire(), m.header);
    lemma_header_len(h, 44, 1);
    lemma_timestamp_len(zero);
    lemma_radix_values();
    law_timestamp_round_trip(zero, Seq::empty());
    assert(zero.wire() + Seq::<u8>::empty() =~= zero.wire());
    assert(buf.skip(HEADER_LEN as int) =~= zero.wire());
    assert(buf[0] == h.message_type.code());
}

/// Message types and their codes match one to one.
pub proof fn law_type_codes(code: int)
    requires
        0 <= code < 16,
    ensures
        type_of_code(code).code() == code,
        type_of_code(code).canonical(),
{
}

} // verus!
