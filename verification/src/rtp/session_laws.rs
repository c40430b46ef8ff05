//! What a session description says, line by line, and what is made of what it leaves out.

use vstd::arithmetic::div_mod::lemma_fundamental_div_mod_converse;
use vstd::prelude::*;

use crate::ptp::servo::geometry_is;
use crate::ptp::servo_laws::{fills, lemma_geometry, rounds};
use crate::rtp::addressing::Ipv4Addr;
use crate::rtp::scan::{
    address_of, after, all_digits, digits_value, first_space, is_digit, is_space, lemma_first_of,
    lemma_first_space_is, number, split, strip_returns, trimmed, upper, upper_char, words,
};
use crate::rtp::scan_laws::{
    free_of, is_word, law_pieces_join_back, lemma_digits_plain, lemma_number_back, lemma_split_more, lemma_split_one,
    lemma_trimmed_already, with_between,
};
use crate::rtp::sdp::{
    conclude, joined, map_for, map_of, nothing_collected, places_are, ptime_text_by, ptime_text_is, refclk_of,
    sdp_lines, take_attribute, take_connection, take_field, take_line, take_media, take_origin, Collected, Direction,
    Encoding, MapView, PacketTime, PlainView, PtimeSteps, RefClockView, SdpError, SdpErrorView, StreamDescription,
};
use crate::sample::{bits_are, exact, fraction_is, size, truncated_is, whole_is, Sample};
use crate::text::decimal;

verus! {

// Writing.

/// A line with its ending.
pub open spec fn ended(line: Seq<char>) -> Seq<char> {
    line + seq!['\r', '\n']
}

/// An address as its four octets, most significant first.
pub open spec fn dotted(bits: u32) -> Seq<char> {
    decimal((bits as int / 0x100_0000) as nat) + "."@ + decimal((bits as int / 0x1_0000 % 0x100) as nat) + "."@
        + decimal((bits as int / 0x100 % 0x100) as nat) + "."@ + decimal((bits as int % 0x100) as nat)
}

/// The line for the reference clock, where there is one.
pub open spec fn clock_line(r: RefClockView) -> Seq<char> {
    match r {
        RefClockView::Ptp { gmid, domain } => ended(
            "a=ts-refclk:ptp=IEEE1588-2008:"@ + gmid + ":"@ + decimal(domain as nat),
        ),
        RefClockView::PtpTraceable => ended("a=ts-refclk:ptp=IEEE1588-2008:traceable"@),
        RefClockView::Unspecified => Seq::empty(),
    }
}

/// A description's text, with this packet time.
pub open spec fn announced(p: PlainView, ptime: Seq<char>) -> Seq<char> {
    ended("v=0"@) + ended(
        "o=- "@ + decimal(p.session_id as nat) + " "@ + decimal(p.session_version as nat) + " IN IP4 "@ + dotted(
            p.origin_addr,
        ),
    ) + ended("s="@ + p.session_name) + ended("c=IN IP4 "@ + dotted(p.address) + "/"@ + decimal(p.ttl as nat)) + ended(
        "t=0 0"@,
    ) + ended("m=audio "@ + decimal(p.port as nat) + " RTP/AVP "@ + decimal(p.payload_type as nat)) + ended(
        "a=rtpmap:"@ + decimal(p.payload_type as nat) + " "@ + (if p.encoding is L24 {
            "L24"@
        } else {
            "L16"@
        }) + "/"@ + decimal(p.sample_rate as nat) + "/"@ + decimal(p.channels as nat),
    ) + ended("a=ptime:"@ + ptime) + clock_line(p.refclk) + ended("a=mediaclk:direct=0"@) + ended(
        "a="@ + (if p.direction is SendOnly {
            "sendonly"@
        } else if p.direction is RecvOnly {
            "recvonly"@
        } else {
            "sendrecv"@
        }),
    )
}

proof fn lemma_joined_push(lines: Seq<Seq<char>>, line: Seq<char>)
    ensures
        joined(lines.push(line)) == joined(lines) + ended(line),
{
    reveal_strlit("\r\n");
    assert("\r\n"@ =~= seq!['\r', '\n']);
    assert(lines.push(line).drop_last() =~= lines);
    assert(joined(lines) + line + "\r\n"@ =~= joined(lines) + ended(line));
}

/// A description is written out line by line, each with a carriage return and a line feed.
pub proof fn law_description_is_written_out<S: PacketTime>(d: StreamDescription<S>, r: String)
    requires
        call_ensures(StreamDescription::<S>::to_sdp, (&d,), r),
    ensures
        exists|ptime: Seq<char>| #[trigger] ptime_text_is(d.ptime_ms, ptime) && r@ == announced(d.plain(), ptime),
{
    let p = d.plain();
    let ptime = choose|ptime: Seq<char>| #[trigger]
        ptime_text_is(d.ptime_ms, ptime) && r@ == joined(sdp_lines(p, ptime));
    let lines = sdp_lines(p, ptime);
    let l0 = Seq::<Seq<char>>::empty();
    let l1 = l0.push(lines[0]);
    let l2 = l1.push(lines[1]);
    let l3 = l2.push(lines[2]);
    let l4 = l3.push(lines[3]);
    let l5 = l4.push(lines[4]);
    let l6 = l5.push(lines[5]);
    let l7 = l6.push(lines[6]);
    let l8 = l7.push(lines[7]);
    lemma_joined_push(l0, lines[0]);
    lemma_joined_push(l1, lines[1]);
    lemma_joined_push(l2, lines[2]);
    lemma_joined_push(l3, lines[3]);
    lemma_joined_push(l4, lines[4]);
    lemma_joined_push(l5, lines[5]);
    lemma_joined_push(l6, lines[6]);
    lemma_joined_push(l7, lines[7]);
    assert(joined(l0) =~= Seq::<char>::empty());
    assert(joined(l0) + ended(lines[0]) =~= ended(lines[0]));
    let n = lines.len() as int;
    let l9 = match p.refclk {
        RefClockView::Unspecified => l8,
        _ => l8.push(lines[8]),
    };
    if !(p.refclk is Unspecified) {
        lemma_joined_push(l8, lines[8]);
    }
    assert(joined(l9) =~= joined(l8) + clock_line(p.refclk));
    let l10 = l9.push(lines[n - 2]);
    let l11 = l10.push(lines[n - 1]);
    lemma_joined_push(l9, lines[n - 2]);
    lemma_joined_push(l10, lines[n - 1]);
    assert(l11 =~= lines);
    assert(joined(lines) == announced(p, ptime));
    assert(ptime_text_is(d.ptime_ms, ptime));
}

/// Whether, under `val`, a number's fraction is what is left of it once it is truncated, and the
/// smallest step is `step`.
pub open spec fn fractions<S: Sample>(val: spec_fn(S) -> real, step: real) -> bool {
    &&& forall|a: S, r: S, t: i128| #[trigger]
        fraction_is(a, r) && #[trigger] truncated_is(a, t) ==> val(r) == val(a) - t as real
    &&& forall|e: S| #[trigger] bits_are(0x3400_0000, e) ==> val(e) == step
    &&& (0 as real) < step && step < 1 as real
}

/// Whole milliseconds are announced as a plain number; anything a step or more off a whole
/// number is announced with three places.
pub proof fn law_packet_time_is_announced<S: PacketTime>(
    val: spec_fn(S) -> real,
    step: real,
    x: S,
    n: nat,
    text: Seq<char>,
)
    requires
        exact(val),
        fractions(val, step),
        ptime_text_is(x, text),
        n <= u32::MAX,
    ensures
        val(x) == n as real ==> text == decimal(n),
        n as real + step <= val(x) && val(x) <= (n + 1) as real - step ==> places_are(x, text),
{
    let w = choose|w: PtimeSteps<S>| #[trigger] ptime_text_by(x, w, text);
    let t = w.truncated;
    assert(val(w.fraction) == val(x) - t as real);
    assert(bits_are(0x3400_0000, w.epsilon));
    if n as real <= val(x) && val(x) < (n + 1) as real {
        assert(size(val(x) - t as real) < 1 as real);
        assert(t == n) by {
            assert(val(x) - t as real > -1 as real);
            assert(val(x) - (t as real) < 1 as real);
            assert((n - t) as real == n as real - t as real);
        }
    }
}

/// A plain stream is mono, L24, 48 kHz, a millisecond a packet, sent only, on port 5004 and with
/// 32 hops to live, locked to whatever grandmaster there is.
pub proof fn law_plain_stream<S: PacketTime>(
    name: &str,
    origin: Ipv4Addr,
    address: Ipv4Addr,
    payload_type: u8,
    id: u64,
    d: StreamDescription<S>,
)
    requires
        call_ensures(StreamDescription::<S>::mono_l24, (name, origin, address, payload_type, id), d),
    ensures
        d.session_name@ == name@,
        d.origin_addr.bits == origin.bits,
        d.address.bits == address.bits,
        d.session_id == id,
        d.session_version == id,
        d.payload_type == payload_type,
        d.ttl == 32,
        d.port == 5004,
        d.encoding is L24,
        d.sample_rate == 48000,
        d.channels == 1,
        d.refclk@ is PtpTraceable,
        d.direction is SendOnly,
        whole_is(1, d.ptime_ms),
{
    let p = d.plain();
    assert(p.session_name == name@);
    assert(p.refclk is PtpTraceable);
}

/// In exact arithmetic a packet holds the samples of its packet time at its own rate; and its
/// payload is those for every channel, two bytes to a sample for L16 and three for L24.
pub proof fn law_payload_holds_every_channel<S: PacketTime>(
    val: spec_fn(S) -> real,
    d: StreamDescription<S>,
    samples: usize,
    bytes: usize,
)
    requires
        exact(val),
        rounds(val),
        0 as real <= val(d.ptime_ms) <= 1_000_000 as real,
        d.sample_rate <= 1_000_000,
        call_ensures(StreamDescription::<S>::ptime_samples, (&d,), samples),
        call_ensures(StreamDescription::<S>::payload_bytes, (&d,), bytes),
    ensures
        fills(val, d.sample_rate, d.ptime_ms, samples as int),
        bytes == samples * d.channels * (if d.encoding is L24 {
            3int
        } else {
            2
        }),
{
    lemma_geometry(val, d.sample_rate, d.ptime_ms, samples);
    let n = choose|n: usize| #[trigger]
        geometry_is(d.sample_rate, d.ptime_ms, n) && bytes == n * d.channels * d.encoding.size();
    lemma_geometry(val, d.sample_rate, d.ptime_ms, n);
    lemma_one_filling(val, d.sample_rate, d.ptime_ms, n as int, samples as int);
}

/// The payload is counted exactly where it can be.
pub proof fn law_payload_is_counted_where_it_can_be<S: PacketTime>(
    val: spec_fn(S) -> real,
    d: StreamDescription<S>,
    samples: usize,
    checked: Option<usize>,
)
    requires
        exact(val),
        rounds(val),
        0 as real <= val(d.ptime_ms) <= 1_000_000 as real,
        d.sample_rate <= 1_000_000,
        call_ensures(StreamDescription::<S>::ptime_samples, (&d,), samples),
        call_ensures(StreamDescription::<S>::checked_payload_bytes, (&d,), checked),
    ensures
        ({
            let bytes = samples * d.channels * (if d.encoding is L24 {
                3int
            } else {
                2
            });
            &&& checked is Some <==> bytes <= usize::MAX
            &&& checked matches Some(n) ==> n == bytes
        }),
{
    lemma_geometry(val, d.sample_rate, d.ptime_ms, samples);
    if let Some(b) = checked {
        let m = choose|m: usize| #[trigger]
            geometry_is(d.sample_rate, d.ptime_ms, m) && b == m * d.channels * d.encoding.size();
        lemma_geometry(val, d.sample_rate, d.ptime_ms, m);
        lemma_one_filling(val, d.sample_rate, d.ptime_ms, m as int, samples as int);
    } else {
        let m = choose|m: usize| #[trigger]
            geometry_is(d.sample_rate, d.ptime_ms, m) && m * d.channels * d.encoding.size() > usize::MAX;
        lemma_geometry(val, d.sample_rate, d.ptime_ms, m);
        lemma_one_filling(val, d.sample_rate, d.ptime_ms, m as int, samples as int);
    }
}

/// No two numbers are both the nearest.
proof fn lemma_one_filling<S: Sample>(val: spec_fn(S) -> real, rate: u32, ptime_ms: S, n: int, m: int)
    requires
        fills(val, rate, ptime_ms, n),
        fills(val, rate, ptime_ms, m),
    ensures
        n == m,
{
    let x = rate as real * val(ptime_ms) / (1000 as real);
    assert(n as real - (m as real) < 1 as real);
    assert(m as real - (n as real) < 1 as real);
    assert((n - m) as real == n as real - m as real);
}

/// Encodings and directions are called what the standard calls them.
pub proof fn law_names_are_the_standards(e: Encoding, size: usize, encoding: &'static str, d: Direction, direction: &'static str)
    requires
        call_ensures(Encoding::bytes_per_sample, (e,), size),
        call_ensures(Encoding::as_str, (e,), encoding),
        call_ensures(Direction::as_str, (d,), direction),
    ensures
        e is L16 ==> size == 2 && encoding@ == "L16"@,
        e is L24 ==> size == 3 && encoding@ == "L24"@,
        d is SendOnly ==> direction@ == "sendonly"@,
        d is RecvOnly ==> direction@ == "recvonly"@,
        d is SendRecv ==> direction@ == "sendrecv"@,
{
}

/// What an error says.
pub proof fn law_errors_say_what_is_missing(e: SdpError, r: String)
    requires
        call_ensures(SdpError::text, (&e,), r),
    ensures
        e is NoAudioMedia ==> r@ == "no m=audio line, so this describes no audio stream"@,
        e is NoConnection ==> r@ == "no c= connection line, so there is no address to receive from"@,
        e matches SdpError::NoRtpmap(pt) ==> r@ == "no a=rtpmap for payload type "@ + decimal(pt as nat),
        e matches SdpError::UnsupportedEncoding(name) ==> r@ == "unsupported encoding '"@ + name@
            + "'; AES67 mandates L16 or L24"@,
        e matches SdpError::Malformed { field, value } ==> r@ == "malformed "@ + field@ + ": "@ + value@,
{
}

// Reading.

/// A document that says nothing has no media, no address and no mapping; 32 hops to live, no
/// reference clock, and audio that is sent only.
pub proof fn law_nothing_said_is_nothing_known()
    ensures
        nothing_collected().session_name.len() == 0,
        nothing_collected().origin_addr == 0,
        nothing_collected().session_id == 0,
        nothing_collected().session_version == 0,
        nothing_collected().address is None,
        nothing_collected().ttl == 32,
        nothing_collected().port is None,
        nothing_collected().payload_type is None,
        nothing_collected().maps.len() == 0,
        nothing_collected().ptimes.len() == 0,
        nothing_collected().refclk is Unspecified,
        nothing_collected().direction is SendOnly,
{
}

proof fn lemma_map_for(maps: Seq<MapView>, pt: u8)
    ensures
        map_for(maps, pt) is None <==> forall|i: int| 0 <= i < maps.len() ==> (#[trigger] maps[i]).payload_type != pt,
        map_for(maps, pt) matches Some(m) ==> exists|i: int|
            0 <= i < maps.len() && #[trigger] maps[i] == m && m.payload_type == pt && forall|j: int|
                i < j < maps.len() ==> (#[trigger] maps[j]).payload_type != pt,
    decreases maps.len(),
{
    if maps.len() > 0 {
        let rest = maps.drop_last();
        lemma_map_for(rest, pt);
        if maps.last().payload_type == pt {
            assert(maps[maps.len() - 1] == maps.last());
        } else {
            if let Some(m) = map_for(rest, pt) {
                let i = choose|i: int|
                    0 <= i < rest.len() && #[trigger] rest[i] == m && m.payload_type == pt && forall|j: int|
                        i < j < rest.len() ==> (#[trigger] rest[j]).payload_type != pt;
                assert(maps[i] == m);
                assert forall|j: int| i < j < maps.len() implies (#[trigger] maps[j]).payload_type != pt by {
                    if j < rest.len() {
                        assert(rest[j] == maps[j]);
                    }
                }
            } else {
                assert forall|i: int| 0 <= i < maps.len() implies (#[trigger] maps[i]).payload_type != pt by {
                    if i < rest.len() {
                        assert(rest[i] == maps[i]);
                    }
                }
            }
        }
    }
}

/// Whether a text is L and two digits, the letter in either case.
pub open spec fn is_linear(s: Seq<char>, a: char, b: char) -> bool {
    s.len() == 3 && (s[0] == 'L' || s[0] == 'l') && s[1] == a && s[2] == b
}

/// Whether a mapping is the last one for a payload type.
pub open spec fn last_for(maps: Seq<MapView>, pt: u8, i: int) -> bool {
    0 <= i < maps.len() && maps[i].payload_type == pt && forall|j: int|
        i < j < maps.len() ==> (#[trigger] maps[j]).payload_type != pt
}

/// A document describes a stream where it has a media line, an address, and a mapping for the
/// media's payload type to L16 or L24; of several the last holds. What is missing is named in
/// that order.
pub proof fn law_a_document_must_say_enough(c: Collected, i: int)
    requires
        c.payload_type matches Some(pt) ==> last_for(c.maps, pt, i) || forall|j: int|
            0 <= j < c.maps.len() ==> (#[trigger] c.maps[j]).payload_type != pt,
    ensures
        ({
            let r = conclude(c);
            let media = c.port is Some && c.payload_type is Some;
            let mapped = last_for(c.maps, c.payload_type->0, i);
            let e = c.maps[i].encoding;
            let known = is_linear(e, '2', '4') || is_linear(e, '1', '6');
            &&& !media ==> r == Err::<PlainView, SdpErrorView>(SdpErrorView::NoAudioMedia)
            &&& media && c.address is None ==> r == Err::<PlainView, SdpErrorView>(SdpErrorView::NoConnection)
            &&& media && c.address is Some && !mapped ==> r == Err::<PlainView, SdpErrorView>(
                SdpErrorView::NoRtpmap(c.payload_type->0),
            )
            &&& media && c.address is Some && mapped && !known ==> r is Err && r->Err_0 is UnsupportedEncoding
            &&& media && c.address is Some && mapped && known ==> {
                &&& r matches Ok(p)
                &&& p.session_name == c.session_name
                &&& p.origin_addr == c.origin_addr
                &&& p.session_id == c.session_id
                &&& p.session_version == c.session_version
                &&& p.address == c.address->0
                &&& p.ttl == c.ttl
                &&& p.port == c.port->0
                &&& p.payload_type == c.payload_type->0
                &&& p.encoding is L24 <==> is_linear(e, '2', '4')
                &&& p.sample_rate == c.maps[i].rate
                &&& p.channels == c.maps[i].channels
                &&& p.refclk == c.refclk
                &&& p.direction == c.direction
            }
        }),
{
    if c.payload_type is Some {
        let pt = c.payload_type->0;
        lemma_map_for(c.maps, pt);
        if let Some(m) = map_for(c.maps, pt) {
            let k = choose|k: int|
                0 <= k < c.maps.len() && #[trigger] c.maps[k] == m && m.payload_type == pt && forall|j: int|
                    k < j < c.maps.len() ==> (#[trigger] c.maps[j]).payload_type != pt;
            if k < i {
                assert(c.maps[i].payload_type != pt);
            } else if i < k {
                assert(c.maps[k].payload_type != pt);
            }
            lemma_linear(m.encoding);
        }
    }
}

proof fn lemma_linear(s: Seq<char>)
    ensures
        upper(s) == "L24"@ <==> is_linear(s, '2', '4'),
        upper(s) == "L16"@ <==> is_linear(s, '1', '6'),
{
    reveal_strlit("L24");
    reveal_strlit("L16");
    let u = upper(s);
    if s.len() == 3 {
        assert(u[0] == upper_char(s[0]));
        assert(u[1] == upper_char(s[1]));
        assert(u[2] == upper_char(s[2]));
        if is_linear(s, '2', '4') {
            assert(u =~= "L24"@);
        }
        if is_linear(s, '1', '6') {
            assert(u =~= "L16"@);
        }
    } else {
        assert(u.len() == s.len());
    }
}

/// A mapping names its payload type and encoding; the rate is 48 kHz where it says none, and the
/// channels are one where it says none.
pub proof fn law_a_mapping_may_leave_out_its_end(pt: u8, encoding: Seq<char>, rate: u32, channels: u16)
    requires
        is_word(encoding),
        free_of(encoding, '/'),
    ensures
        map_of(decimal(pt as nat) + seq![' '] + encoding) == Some(
            MapView { payload_type: pt, encoding, rate: 48000, channels: 1 },
        ),
        map_of(decimal(pt as nat) + seq![' '] + (encoding + seq!['/'] + decimal(rate as nat))) == Some(
            MapView { payload_type: pt, encoding, rate, channels: 1 },
        ),
        map_of(
            decimal(pt as nat) + seq![' '] + (encoding + seq!['/'] + (decimal(rate as nat) + seq!['/'] + decimal(
                channels as nat,
            ))),
        ) == Some(MapView { payload_type: pt, encoding, rate, channels }),
{
    let (r, n) = (decimal(rate as nat), decimal(channels as nat));
    let slash = seq!['/'];
    lemma_digits_plain(rate as nat);
    lemma_digits_plain(channels as nat);
    lemma_number_back(rate as nat, u32::MAX as int);
    lemma_number_back(channels as nat, u16::MAX as int);
    lemma_split_one(encoding, '/');
    lemma_split_one(r, '/');
    lemma_split_one(n, '/');
    lemma_split_more(encoding, '/', r);
    lemma_split_more(r, '/', n);
    lemma_split_more(encoding, '/', r + slash + n);
    assert(split(encoding + slash + r, '/') =~= seq![encoding, r]);
    assert(split(encoding + slash + (r + slash + n), '/') =~= seq![encoding, r, n]);
    lemma_map_head(pt, encoding);
    lemma_map_head(pt, encoding + slash + r);
    lemma_map_head(pt, encoding + slash + (r + slash + n));
}

proof fn lemma_map_head(pt: u8, rest: Seq<char>)
    requires
        rest.len() > 0,
        !is_space(rest[0]),
        !is_space(rest.last()),
    ensures
        ({
            let s = decimal(pt as nat) + seq![' '] + rest;
            let k = first_space(s);
            &&& k < s.len()
            &&& number(s.take(k), u8::MAX as int) == Some(pt as int)
            &&& trimmed(s.skip(k + 1)) == rest
        }),
{
    let p = decimal(pt as nat);
    let s = p + seq![' '] + rest;
    lemma_digits_plain(pt as nat);
    lemma_number_back(pt as nat, u8::MAX as int);
    let k = p.len() as int;
    assert forall|i: int| 0 <= i < k implies !is_space(s[i]) by {
        assert(s[i] == p[i]);
    }
    assert(s[k] == ' ');
    lemma_first_space_is(s, k);
    assert(s.take(k) =~= p);
    assert(s.skip(k + 1) =~= rest);
    lemma_trimmed_already(rest);
}

/// A clock reference says which grandmaster, in domain 0 where it names none; or that any
/// traceable one will do. What is no PTP reference says nothing.
pub proof fn law_a_clock_reference_may_leave_out_its_domain(version: Seq<char>, gmid: Seq<char>, domain: u8, other: Seq<char>)
    requires
        free_of(version, ':'),
        free_of(gmid, ':'),
        gmid != "traceable"@,
        after(other, "ptp="@) is None,
    ensures
        refclk_of("ptp="@ + (version + seq![':'] + gmid)) == (RefClockView::Ptp { gmid, domain: 0 }),
        refclk_of("ptp="@ + (version + seq![':'] + (gmid + seq![':'] + decimal(domain as nat)))) == (RefClockView::Ptp {
            gmid,
            domain,
        }),
        refclk_of("ptp="@ + (version + seq![':'] + "traceable"@)) is PtpTraceable,
        refclk_of("ptp="@ + version) is Unspecified,
        refclk_of(other) is Unspecified,
{
    let d = decimal(domain as nat);
    let colon = seq![':'];
    let head = "ptp="@;
    lemma_digits_plain(domain as nat);
    lemma_number_back(domain as nat, u8::MAX as int);
    reveal_strlit("traceable");
    assert(free_of("traceable"@, ':'));
    lemma_split_one(gmid, ':');
    lemma_split_one(d, ':');
    lemma_split_one("traceable"@, ':');
    lemma_split_one(version, ':');
    lemma_split_more(gmid, ':', d);
    lemma_split_more(version, ':', gmid);
    lemma_split_more(version, ':', gmid + colon + d);
    lemma_split_more(version, ':', "traceable"@);
    lemma_after(head, version + colon + gmid);
    lemma_after(head, version + colon + (gmid + colon + d));
    lemma_after(head, version + colon + "traceable"@);
    lemma_after(head, version);
    assert(split(version + colon + gmid, ':') =~= seq![version, gmid]);
    assert(split(version + colon + (gmid + colon + d), ':') =~= seq![version, gmid, d]);
    assert(split(version + colon + "traceable"@, ':') =~= seq![version, "traceable"@]);
}

proof fn lemma_after(head: Seq<char>, rest: Seq<char>)
    ensures
        after(head + rest, head) == Some(rest),
{
    let s = head + rest;
    assert(head.is_prefix_of(s)) by {
        assert(s.subrange(0, head.len() as int) =~= head);
    }
    assert(s.skip(head.len() as int) =~= rest);
}

/// A line without an equals sign, and one whose key is none of those that matter, says nothing.
pub proof fn law_other_lines_say_nothing(c: Collected, raw: Seq<char>, key: Seq<char>, value: Seq<char>)
    requires
        free_of(strip_returns(raw), '='),
        key != "o"@ && key != "s"@ && key != "c"@ && key != "m"@ && key != "a"@,
    ensures
        take_line(c, raw) == Ok::<Collected, SdpErrorView>(c),
        take_field(c, key, value) == Ok::<Collected, SdpErrorView>(c),
{
    lemma_first_of(strip_returns(raw), '=');
}

/// The direction is the last one said, and an attribute that is not known says nothing.
pub proof fn law_attributes_set_the_direction(c: Collected, value: Seq<char>)
    ensures
        take_attribute(c, "sendonly"@) == (Collected { direction: Direction::SendOnly, ..c }),
        take_attribute(c, "recvonly"@) == (Collected { direction: Direction::RecvOnly, ..c }),
        take_attribute(c, "sendrecv"@) == (Collected { direction: Direction::SendRecv, ..c }),
        after(value, "rtpmap:"@) is None && after(value, "ptime:"@) is None && after(value, "ts-refclk:"@) is None
            && value != "sendonly"@ && value != "recvonly"@ && value != "sendrecv"@ ==> take_attribute(c, value) == c,
{
    reveal_strlit("sendonly");
    reveal_strlit("recvonly");
    reveal_strlit("sendrecv");
    reveal_strlit("rtpmap:");
    reveal_strlit("ptime:");
    reveal_strlit("ts-refclk:");
    assert("sendonly"@[0] == 's' && "recvonly"@[1] == 'e' && "sendrecv"@[0] == 's');
    assert("rtpmap:"@[0] == 'r' && "rtpmap:"@[1] == 't' && "ptime:"@[0] == 'p' && "ts-refclk:"@[0] == 't');
    lemma_not_after("sendonly"@, "rtpmap:"@, 0);
    lemma_not_after("sendonly"@, "ptime:"@, 0);
    lemma_not_after("sendonly"@, "ts-refclk:"@, 0);
    lemma_not_after("recvonly"@, "rtpmap:"@, 1);
    lemma_not_after("recvonly"@, "ptime:"@, 0);
    lemma_not_after("recvonly"@, "ts-refclk:"@, 0);
    lemma_not_after("sendrecv"@, "rtpmap:"@, 0);
    lemma_not_after("sendrecv"@, "ptime:"@, 0);
    lemma_not_after("sendrecv"@, "ts-refclk:"@, 0);
    assert("sendonly"@[4] != "sendrecv"@[4]);
    assert("recvonly"@[0] != "sendonly"@[0]);
    assert("recvonly"@[0] != "sendrecv"@[0]);
}

proof fn lemma_not_after(s: Seq<char>, prefix: Seq<char>, i: int)
    requires
        0 <= i < prefix.len(),
        i < s.len() ==> s[i] != prefix[i],
    ensures
        after(s, prefix) is None,
{
    if prefix.is_prefix_of(s) {
        assert(prefix[i] == s.subrange(0, prefix.len() as int)[i]);
    }
}

/// A media line for audio gives the port and the payload type, the second and fourth of its
/// words, and says which of them is no number that fits; one for anything else says nothing.
pub proof fn law_media_lines_give_port_and_payload_type(c: Collected, value: Seq<char>)
    ensures
        ({
            let w = words(value);
            let audio = w.len() >= 4 && w[0] == "audio"@;
            let port = number(w[1], 65535);
            let pt = number(w[3], 255);
            let r = take_media(c, value);
            &&& !audio ==> r == Ok::<Collected, SdpErrorView>(c)
            &&& audio && port is None ==> r == Err::<Collected, SdpErrorView>(
                SdpErrorView::Malformed { field: "media port"@, value: w[1] },
            )
            &&& audio && port is Some && pt is None ==> r == Err::<Collected, SdpErrorView>(
                SdpErrorView::Malformed { field: "payload type"@, value: w[3] },
            )
            &&& audio && port is Some && pt is Some ==> r == Ok::<Collected, SdpErrorView>(
                Collected { port: Some(port->0 as u16), payload_type: Some(pt->0 as u8), ..c },
            )
        }),
{
}

/// A connection line gives the address, the third of its words up to a slash, and the hops to
/// live behind the slash: unchanged where it has none, 32 where they are no number that fits.
pub proof fn law_connection_lines_give_the_address(c: Collected, value: Seq<char>)
    ensures
        ({
            let w = words(value);
            let p = split(w[2], '/');
            let r = take_connection(c, value);
            &&& w.len() < 3 ==> r == Ok::<Collected, SdpErrorView>(c)
            &&& w.len() >= 3 && address_of(p[0]) is None ==> r == Err::<Collected, SdpErrorView>(
                SdpErrorView::Malformed { field: "connection address"@, value: p[0] },
            )
            &&& w.len() >= 3 && address_of(p[0]) is Some ==> {
                &&& r matches Ok(d)
                &&& d.address == address_of(p[0])
                &&& p.len() < 2 ==> d.ttl == c.ttl
                &&& p.len() >= 2 && number(p[1], 255) is None ==> d.ttl == 32
                &&& p.len() >= 2 && number(p[1], 255) is Some ==> d.ttl == number(p[1], 255)->0
                &&& d == (Collected { address: d.address, ttl: d.ttl, ..c })
            }
        }),
{
    let w = words(value);
    let p = split(w[2], '/');
    if p.len() >= 2 {
        lemma_number_range(p[1], 255);
    }
}

/// A number that was read is not below zero, nor above what fits.
proof fn lemma_number_range(s: Seq<char>, max: int)
    ensures
        number(s, max) matches Some(n) ==> 0 <= n <= max,
{
    let d = if s.len() > 0 && s[0] == '+' {
        s.skip(1)
    } else {
        s
    };
    if all_digits(d) {
        lemma_digits_positive(d);
    }
}

proof fn lemma_digits_positive(s: Seq<char>)
    requires
        all_digits(s),
    ensures
        digits_value(s) >= 0,
    decreases s.len(),
{
    if s.len() > 0 {
        assert(is_digit(s[s.len() - 1]));
        assert forall|i: int| 0 <= i < s.len() - 1 implies is_digit(#[trigger] s.drop_last()[i]) by {
            assert(is_digit(s[i]));
        }
        lemma_digits_positive(s.drop_last());
    }
}

/// An origin line of six words or more gives the session's id and version, the second and third,
/// each nought where it is no number that fits, and the address, the sixth, nought where it is
/// none. A shorter one says nothing.
pub proof fn law_origin_lines_give_the_session(c: Collected, value: Seq<char>)
    ensures
        ({
            let w = words(value);
            let d = take_origin(c, value);
            let id = number(w[1], 0xffff_ffff_ffff_ffff);
            let version = number(w[2], 0xffff_ffff_ffff_ffff);
            &&& w.len() < 6 ==> d == c
            &&& w.len() >= 6 ==> {
                &&& d == (Collected {
                    session_id: d.session_id,
                    session_version: d.session_version,
                    origin_addr: d.origin_addr,
                    ..c
                })
                &&& d.session_id == (if id is Some {
                    id->0
                } else {
                    0
                })
                &&& d.session_version == (if version is Some {
                    version->0
                } else {
                    0
                })
                &&& d.origin_addr == (if address_of(w[5]) is Some {
                    address_of(w[5])->0
                } else {
                    0u32
                })
            }
        }),
{
    let w = words(value);
    if w.len() >= 6 {
        lemma_number_range(w[1], 0xffff_ffff_ffff_ffff);
        lemma_number_range(w[2], 0xffff_ffff_ffff_ffff);
    }
}

/// Digits without a zero in front are the text of what they count to.
proof fn lemma_digits_text(s: Seq<char>)
    requires
        s.len() > 0,
        all_digits(s),
        s.len() > 1 ==> s[0] != '0',
    ensures
        digits_value(s) >= 0,
        decimal(digits_value(s) as nat) == s,
        s[0] != '0' ==> digits_value(s) > 0,
    decreases s.len(),
{
    let t = s.drop_last();
    assert(is_digit(s[s.len() - 1]));
    let d = s.last() as int - '0' as int;
    if s.len() == 1 {
        assert(t =~= Seq::<char>::empty());
        assert(digits_value(t) == 0);
        assert(decimal(d as nat) =~= s);
    } else {
        assert forall|i: int| 0 <= i < t.len() implies is_digit(#[trigger] t[i]) by {
            assert(is_digit(s[i]));
        }
        assert(t[0] == s[0]);
        lemma_digits_text(t);
        let n = digits_value(s);
        assert(n == 10 * digits_value(t) + d);
        assert(n / 10 == digits_value(t) && n % 10 == d);
        assert(decimal(n as nat) =~= s);
    }
}

proof fn lemma_between_front(p: Seq<Seq<char>>, c: char)
    requires
        p.len() > 1,
    ensures
        with_between(p, c) == p[0] + seq![c] + with_between(p.skip(1), c),
{
}

proof fn lemma_four_pieces(p: Seq<Seq<char>>)
    requires
        p.len() == 4,
    ensures
        with_between(p, '.') == p[0] + seq!['.'] + (p[1] + seq!['.'] + (p[2] + seq!['.'] + p[3])),
{
    let (q, r) = (p.skip(1), p.skip(1).skip(1));
    let t = r.skip(1);
    lemma_between_front(p, '.');
    lemma_between_front(q, '.');
    lemma_between_front(r, '.');
    assert(with_between(t, '.') == t[0]);
}

proof fn lemma_octets_apart(bits: int, a: int, b: int, c: int, d: int)
    requires
        0 <= a <= 255,
        0 <= b <= 255,
        0 <= c <= 255,
        0 <= d <= 255,
        bits == a * 0x100_0000 + b * 0x1_0000 + c * 0x100 + d,
    ensures
        0 <= bits <= u32::MAX,
        bits / 0x100_0000 == a,
        bits / 0x1_0000 % 0x100 == b,
        bits / 0x100 % 0x100 == c,
        bits % 0x100 == d,
{
    let (ab, abc) = (a * 0x100 + b, (a * 0x100 + b) * 0x100 + c);
    lemma_fundamental_div_mod_converse(bits, 0x100_0000, a, b * 0x1_0000 + c * 0x100 + d);
    lemma_fundamental_div_mod_converse(bits, 0x1_0000, ab, c * 0x100 + d);
    lemma_fundamental_div_mod_converse(bits, 0x100, abc, d);
    lemma_fundamental_div_mod_converse(ab, 0x100, a, b);
    lemma_fundamental_div_mod_converse(abc, 0x100, ab, c);
}

proof fn lemma_regrouped(a: Seq<char>, b: Seq<char>, c: Seq<char>, d: Seq<char>, dot: Seq<char>)
    ensures
        a + dot + (b + dot + (c + dot + d)) == a + dot + b + dot + c + dot + d,
{
    assert(a + dot + (b + dot + (c + dot + d)) =~= a + dot + b + dot + c + dot + d);
}

/// An address is read from nothing but its own text: four octets, without zeros in front, and
/// dots between them.
pub proof fn law_addresses_are_read_from_their_own_text(s: Seq<char>)
    ensures
        address_of(s) matches Some(bits) ==> s == dotted(bits),
{
    if address_of(s) is Some {
        let p = split(s, '.');
        law_pieces_join_back(s, '.');
        lemma_digits_text(p[0]);
        lemma_digits_text(p[1]);
        lemma_digits_text(p[2]);
        lemma_digits_text(p[3]);
        reveal_strlit(".");
        assert("."@ =~= seq!['.']);
        lemma_four_pieces(p);
        lemma_regrouped(p[0], p[1], p[2], p[3], seq!['.']);
        let (a, b, c, d) = (digits_value(p[0]), digits_value(p[1]), digits_value(p[2]), digits_value(p[3]));
        lemma_octets_apart(a * 0x100_0000 + b * 0x1_0000 + c * 0x100 + d, a, b, c, d);
    }
}

} // verus!
