//! A description that was written reads back as it was.

use vstd::prelude::*;

use crate::rtp::scan::{
    address_of, after, first_of, is_space, lemma_first_of_is, lemma_first_space_is, split, strip_returns, trimmed,
    upper, words,
};
use crate::rtp::scan_laws::{
    free_of, is_word, lemma_decimal, lemma_digits_plain, lemma_number_back, lemma_octet_back, lemma_split_more,
    lemma_split_one, lemma_trimmed_already, lemma_words_last, lemma_words_then,
};
use crate::rtp::sdp::{
    address_text, collect, collected, conclude, each_read, joined, last_read, nothing_collected, origin_text,
    parsed_is, ptime_read, ptime_text_is, read_is, refclk_lines, refclk_of, rtpmap_text, sdp_lines, take_attribute,
    take_field, take_line, written_is, Collected, Direction, MapView, PacketTime, PlainView, RefClockView, SdpError,
    SdpErrorView, StreamDescription,
};
use crate::sample::whole_is;
use crate::text::decimal;

verus! {

/// The lines as they stand between line feeds.
pub open spec fn with_returns(lines: Seq<Seq<char>>) -> Seq<Seq<char>> {
    lines.map_values(|l: Seq<char>| l.push('\r'))
}

proof fn lemma_joined_front(lines: Seq<Seq<char>>)
    requires
        lines.len() > 0,
    ensures
        joined(lines) == lines[0] + "\r\n"@ + joined(lines.skip(1)),
    decreases lines.len(),
{
    let end = "\r\n"@;
    let rest = lines.skip(1);
    if lines.len() == 1 {
        assert(lines.drop_last() =~= Seq::<Seq<char>>::empty());
        assert(rest =~= Seq::<Seq<char>>::empty());
        assert(joined(lines.drop_last()) =~= Seq::<char>::empty());
        assert(joined(rest) =~= Seq::<char>::empty());
        assert(joined(lines) =~= lines[0] + end + joined(rest));
    } else {
        let short = lines.drop_last();
        lemma_joined_front(short);
        assert(short.skip(1) =~= rest.drop_last());
        assert(rest.last() == lines.last());
        assert(short[0] == lines[0]);
        assert(joined(lines) =~= lines[0] + end + (joined(rest.drop_last()) + lines.last() + end));
    }
}

/// Lines that were put together come apart again.
proof fn lemma_lines_apart(lines: Seq<Seq<char>>)
    requires
        forall|i: int| 0 <= i < lines.len() ==> free_of(#[trigger] lines[i], '\n'),
    ensures
        split(joined(lines), '\n') == with_returns(lines).push(Seq::empty()),
    decreases lines.len(),
{
    if lines.len() == 0 {
        lemma_split_one(joined(lines), '\n');
        assert(with_returns(lines) =~= Seq::<Seq<char>>::empty());
        assert(joined(lines) =~= Seq::<char>::empty());
        assert(seq![joined(lines)] =~= with_returns(lines).push(Seq::empty()));
    } else {
        reveal_strlit("\r\n");
        assert("\r\n"@ =~= seq!['\r', '\n']);
        let rest = lines.skip(1);
        lemma_joined_front(lines);
        assert forall|i: int| 0 <= i < rest.len() implies free_of(#[trigger] rest[i], '\n') by {
            assert(rest[i] == lines[i + 1]);
        }
        lemma_lines_apart(rest);
        let a = lines[0].push('\r');
        assert forall|i: int| 0 <= i < a.len() implies #[trigger] a[i] != '\n' by {
            if i < lines[0].len() {
                assert(free_of(lines[0], '\n'));
                assert(lines[0][i] != '\n');
            }
        }
        assert(joined(lines) =~= a + seq!['\n'] + joined(rest));
        lemma_split_more(a, '\n', joined(rest));
        assert(seq![a] + with_returns(rest).push(Seq::empty()) =~= with_returns(lines).push(Seq::empty()));
    }
}

/// A line is its key and its value.
proof fn lemma_field(c: Collected, line: Seq<char>, key: Seq<char>, value: Seq<char>)
    requires
        line == key + seq!['='] + value,
        free_of(key, '='),
        line.last() != '\r',
    ensures
        take_line(c, line.push('\r')) == take_field(c, key, value),
{
    let raw = line.push('\r');
    assert(raw.last() == '\r');
    assert(raw.drop_last() =~= line);
    assert(strip_returns(raw) == strip_returns(line));
    assert(strip_returns(line) == line);
    let k = key.len() as int;
    assert forall|i: int| 0 <= i < k implies line[i] != '=' by {
        assert(line[i] == key[i]);
    }
    assert(line[k] == '=');
    lemma_first_of_is(line, '=', k);
    assert(line.take(k) =~= key);
    assert(line.skip(k + 1) =~= value);
}

/// The keys.
proof fn lemma_keys()
    ensures
        "o"@ == seq!['o'],
        "s"@ == seq!['s'],
        "c"@ == seq!['c'],
        "m"@ == seq!['m'],
        "a"@ == seq!['a'],
{
    reveal_strlit("o");
    reveal_strlit("s");
    reveal_strlit("c");
    reveal_strlit("m");
    reveal_strlit("a");
    assert("o"@ =~= seq!['o']);
    assert("s"@ =~= seq!['s']);
    assert("c"@ =~= seq!['c']);
    assert("m"@ =~= seq!['m']);
    assert("a"@ =~= seq!['a']);
}

/// Four octets make up their address.
proof fn lemma_octets(bits: u32)
    ensures
        (bits / 0x100_0000) * 0x100_0000 + ((bits / 0x1_0000) % 0x100) * 0x1_0000 + ((bits / 0x100) % 0x100) * 0x100
            + bits % 0x100 == bits,
        bits / 0x100_0000 <= 255,
{
}

/// An address taken apart at its dots.
proof fn lemma_dots_apart(sa: Seq<char>, sb: Seq<char>, sc: Seq<char>, sd: Seq<char>)
    requires
        free_of(sa, '.'),
        free_of(sb, '.'),
        free_of(sc, '.'),
        free_of(sd, '.'),
    ensures
        split(sa + seq!['.'] + (sb + seq!['.'] + (sc + seq!['.'] + sd)), '.') == seq![sa, sb, sc, sd],
{
    let dot = seq!['.'];
    lemma_split_one(sd, '.');
    lemma_split_more(sc, '.', sd);
    lemma_split_more(sb, '.', sc + dot + sd);
    lemma_split_more(sa, '.', sb + dot + (sc + dot + sd));
    assert(split(sa + dot + (sb + dot + (sc + dot + sd)), '.') =~= seq![sa, sb, sc, sd]);
}

/// An address reads back as itself, and looks like one.
proof fn lemma_address_back(bits: u32)
    ensures
        address_of(address_text(bits)) == Some(bits),
        is_word(address_text(bits)),
        free_of(address_text(bits), '/'),
        free_of(address_text(bits), '\n'),
        address_text(bits).last() != '\r',
{
    let a = (bits / 0x100_0000) as nat;
    let b = ((bits / 0x1_0000) % 0x100) as nat;
    let c = ((bits / 0x100) % 0x100) as nat;
    let d = (bits % 0x100) as nat;
    let (sa, sb, sc, sd) = (decimal(a), decimal(b), decimal(c), decimal(d));
    let s = address_text(bits);
    let dot = seq!['.'];
    lemma_octets(bits);
    assert(s == sa + dot + (sb + dot + (sc + dot + sd))) by {
        reveal_strlit(".");
        assert("."@ =~= dot);
        assert(s =~= sa + dot + (sb + dot + (sc + dot + sd)));
    }
    lemma_octet_back(a);
    lemma_octet_back(b);
    lemma_octet_back(c);
    lemma_octet_back(d);
    lemma_digits_plain(a);
    lemma_digits_plain(b);
    lemma_digits_plain(c);
    lemma_digits_plain(d);
    lemma_dots_apart(sa, sb, sc, sd);
    lemma_dotted(sa, sb, sc, sd);
    assert(s.last() == sd.last());
}

proof fn lemma_dotted(a: Seq<char>, b: Seq<char>, c: Seq<char>, d: Seq<char>)
    requires
        is_word(a),
        is_word(b),
        is_word(c),
        is_word(d),
        free_of(a, '/'),
        free_of(b, '/'),
        free_of(c, '/'),
        free_of(d, '/'),
    ensures
        ({
            let s = a + seq!['.'] + (b + seq!['.'] + (c + seq!['.'] + d));
            is_word(s) && free_of(s, '/') && free_of(s, '\n')
        }),
{
    let dot = seq!['.'];
    lemma_plain_join(c, dot, d);
    lemma_plain_join(b, dot, c + dot + d);
    lemma_plain_join(a, dot, b + dot + (c + dot + d));
}

proof fn lemma_plain_join(a: Seq<char>, sep: Seq<char>, b: Seq<char>)
    requires
        is_word(a),
        is_word(sep),
        is_word(b),
        free_of(a, '/'),
        free_of(sep, '/'),
        free_of(b, '/'),
    ensures
        is_word(a + sep + b),
        free_of(a + sep + b, '/'),
        free_of(a + sep + b, '\n'),
{
    let s = a + sep + b;
    assert forall|i: int| 0 <= i < s.len() implies !is_space(#[trigger] s[i]) && s[i] != '/' by {
        if i < a.len() {
            assert(s[i] == a[i]);
        } else if i < a.len() + sep.len() {
            assert(s[i] == sep[i - a.len()]);
        } else {
            assert(s[i] == b[i - a.len() - sep.len()]);
        }
    }
}

/// The version line and the timing line say nothing.
proof fn lemma_fixed_lines(c: Collected)
    ensures
        take_line(c, "v=0"@.push('\r')) == Ok::<Collected, SdpErrorView>(c),
        take_line(c, "t=0 0"@.push('\r')) == Ok::<Collected, SdpErrorView>(c),
{
    lemma_keys();
    reveal_strlit("v=0");
    reveal_strlit("t=0 0");
    assert("v=0"@ =~= seq!['v'] + seq!['='] + seq!['0']);
    assert("t=0 0"@ =~= seq!['t'] + seq!['='] + seq!['0', ' ', '0']);
    lemma_field(c, "v=0"@, seq!['v'], seq!['0']);
    lemma_field(c, "t=0 0"@, seq!['t'], seq!['0', ' ', '0']);
    assert(seq!['v'][0] == 'v' && seq!['t'][0] == 't');
    assert(seq!['o'][0] == 'o' && seq!['s'][0] == 's' && seq!['c'][0] == 'c' && seq!['m'][0] == 'm'
        && seq!['a'][0] == 'a');
}

proof fn lemma_key_differs()
    ensures
        seq!['s'] != seq!['o'],
        seq!['c'] != seq!['o'],
        seq!['c'] != seq!['s'],
        seq!['m'] != seq!['o'],
        seq!['m'] != seq!['s'],
        seq!['m'] != seq!['c'],
        seq!['a'] != seq!['o'],
        seq!['a'] != seq!['s'],
        seq!['a'] != seq!['c'],
        seq!['a'] != seq!['m'],
{
    assert(seq!['o'][0] == 'o' && seq!['s'][0] == 's' && seq!['c'][0] == 'c' && seq!['m'][0] == 'm'
        && seq!['a'][0] == 'a');
}

proof fn lemma_origin_line(c: Collected, p: PlainView)
    ensures
        take_line(c, origin_text(p).push('\r')) == Ok::<Collected, SdpErrorView>(
            Collected {
                session_id: p.session_id,
                session_version: p.session_version,
                origin_addr: p.origin_addr,
                ..c
            },
        ),
{
    lemma_keys();
    let id = decimal(p.session_id as nat);
    let version = decimal(p.session_version as nat);
    let addr = address_text(p.origin_addr);
    let sp = seq![' '];
    reveal_strlit("o=- ");
    reveal_strlit(" ");
    reveal_strlit(" IN IP4 ");
    assert("o=- "@ =~= seq!['o'] + seq!['='] + (seq!['-'] + sp));
    assert(" "@ =~= sp);
    assert(" IN IP4 "@ =~= sp + seq!['I', 'N'] + sp + seq!['I', 'P', '4'] + sp);
    let tail = seq!['I', 'N'] + sp + (seq!['I', 'P', '4'] + sp + addr);
    let value = seq!['-'] + sp + (id + sp + (version + sp + tail));
    let line = origin_text(p);
    assert(line =~= seq!['o'] + seq!['='] + value);
    lemma_digits_plain(p.session_id as nat);
    lemma_digits_plain(p.session_version as nat);
    lemma_address_back(p.origin_addr);
    lemma_number_back(p.session_id as nat, u64::MAX as int);
    lemma_number_back(p.session_version as nat, u64::MAX as int);
    assert(line.last() == addr.last());
    lemma_field(c, line, seq!['o'], value);
    lemma_words_last(addr);
    lemma_words_then(seq!['I', 'P', '4'], addr);
    lemma_words_then(seq!['I', 'N'], seq!['I', 'P', '4'] + sp + addr);
    lemma_words_then(version, tail);
    lemma_words_then(id, version + sp + tail);
    lemma_words_then(seq!['-'], id + sp + (version + sp + tail));
    assert(words(value) =~= seq![seq!['-'], id, version, seq!['I', 'N'], seq!['I', 'P', '4'], addr]);
}

proof fn lemma_name_line(c: Collected, name: Seq<char>)
    requires
        name.len() > 0 ==> name.last() != '\r',
    ensures
        take_line(c, ("s="@ + name).push('\r')) == Ok::<Collected, SdpErrorView>(
            Collected { session_name: name, ..c },
        ),
{
    lemma_keys();
    lemma_key_differs();
    reveal_strlit("s=");
    let line = "s="@ + name;
    assert(line =~= seq!['s'] + seq!['='] + name);
    if name.len() > 0 {
        assert(line.last() == name.last());
    } else {
        assert(line.last() == '=');
    }
    lemma_field(c, line, seq!['s'], name);
}

proof fn lemma_connection_line(c: Collected, bits: u32, ttl: u8)
    ensures
        take_line(c, ("c=IN IP4 "@ + address_text(bits) + "/"@ + decimal(ttl as nat)).push('\r')) == Ok::<
            Collected,
            SdpErrorView,
        >(Collected { address: Some(bits), ttl, ..c }),
{
    lemma_keys();
    lemma_key_differs();
    let addr = address_text(bits);
    let life = decimal(ttl as nat);
    let sp = seq![' '];
    reveal_strlit("c=IN IP4 ");
    reveal_strlit("/");
    assert("/"@ =~= seq!['/']);
    assert("c=IN IP4 "@ =~= seq!['c'] + seq!['='] + (seq!['I', 'N'] + sp + (seq!['I', 'P', '4'] + sp)));
    let last = addr + seq!['/'] + life;
    let value = seq!['I', 'N'] + sp + (seq!['I', 'P', '4'] + sp + last);
    let line = "c=IN IP4 "@ + addr + "/"@ + life;
    assert(line =~= seq!['c'] + seq!['='] + value);
    lemma_digits_plain(ttl as nat);
    lemma_address_back(bits);
    lemma_number_back(ttl as nat, u8::MAX as int);
    assert(line.last() == life.last());
    lemma_field(c, line, seq!['c'], value);
    assert(is_word(last)) by {
        assert forall|i: int| 0 <= i < last.len() implies !is_space(#[trigger] last[i]) by {
            if i < addr.len() {
                assert(last[i] == addr[i]);
            } else if i > addr.len() {
                assert(last[i] == life[i - addr.len() - 1]);
            }
        }
    }
    lemma_words_last(last);
    lemma_words_then(seq!['I', 'P', '4'], last);
    lemma_words_then(seq!['I', 'N'], seq!['I', 'P', '4'] + sp + last);
    assert(words(value) =~= seq![seq!['I', 'N'], seq!['I', 'P', '4'], last]);
    lemma_split_one(life, '/');
    lemma_split_more(addr, '/', life);
    assert(split(last, '/') =~= seq![addr, life]);
}

proof fn lemma_media_line(c: Collected, port: u16, pt: u8)
    ensures
        take_line(c, ("m=audio "@ + decimal(port as nat) + " RTP/AVP "@ + decimal(pt as nat)).push('\r')) == Ok::<
            Collected,
            SdpErrorView,
        >(Collected { port: Some(port), payload_type: Some(pt), ..c }),
{
    lemma_keys();
    lemma_key_differs();
    let audio = seq!['a', 'u', 'd', 'i', 'o'];
    let avp = seq!['R', 'T', 'P', '/', 'A', 'V', 'P'];
    let p = decimal(port as nat);
    let f = decimal(pt as nat);
    let sp = seq![' '];
    reveal_strlit("m=audio ");
    reveal_strlit(" RTP/AVP ");
    reveal_strlit("audio");
    assert("audio"@ =~= audio);
    assert("m=audio "@ =~= seq!['m'] + seq!['='] + (audio + sp));
    assert(" RTP/AVP "@ =~= sp + avp + sp);
    let value = audio + sp + (p + sp + (avp + sp + f));
    let line = "m=audio "@ + p + " RTP/AVP "@ + f;
    assert(line =~= seq!['m'] + seq!['='] + value);
    lemma_digits_plain(port as nat);
    lemma_digits_plain(pt as nat);
    lemma_number_back(port as nat, u16::MAX as int);
    lemma_number_back(pt as nat, u8::MAX as int);
    assert(line.last() == f.last());
    lemma_field(c, line, seq!['m'], value);
    lemma_words_last(f);
    lemma_words_then(avp, f);
    lemma_words_then(p, avp + sp + f);
    lemma_words_then(audio, p + sp + (avp + sp + f));
    assert(words(value) =~= seq![audio, p, avp, f]);
}

/// An attribute line is its attribute.
proof fn lemma_attribute_line(c: Collected, value: Seq<char>)
    requires
        value.len() > 0,
        value.last() != '\r',
    ensures
        take_line(c, ("a="@ + value).push('\r')) == Ok::<Collected, SdpErrorView>(take_attribute(c, value)),
{
    lemma_keys();
    lemma_key_differs();
    reveal_strlit("a=");
    let line = "a="@ + value;
    assert(line =~= seq!['a'] + seq!['='] + value);
    assert(line.last() == value.last());
    lemma_field(c, line, seq!['a'], value);
}

/// The mapping that a description announces.
spec fn announced_map(p: PlainView) -> MapView {
    MapView {
        payload_type: p.payload_type,
        encoding: p.encoding.name(),
        rate: p.sample_rate,
        channels: p.channels,
    }
}

proof fn lemma_rtpmap_line(c: Collected, p: PlainView)
    ensures
        take_line(c, rtpmap_text(p).push('\r')) == Ok::<Collected, SdpErrorView>(
            Collected { maps: c.maps.push(announced_map(p)), ..c },
        ),
{
    let pt = decimal(p.payload_type as nat);
    let enc = p.encoding.name();
    let rate = decimal(p.sample_rate as nat);
    let ch = decimal(p.channels as nat);
    let sp = seq![' '];
    let slash = seq!['/'];
    reveal_strlit("a=rtpmap:");
    reveal_strlit("a=");
    reveal_strlit("rtpmap:");
    reveal_strlit(" ");
    reveal_strlit("/");
    reveal_strlit("L16");
    reveal_strlit("L24");
    assert(" "@ =~= sp);
    assert("/"@ =~= slash);
    assert("a=rtpmap:"@ =~= "a="@ + "rtpmap:"@);
    let spec_text = enc + slash + (rate + slash + ch);
    let rest = pt + sp + spec_text;
    let value = "rtpmap:"@ + rest;
    assert(rtpmap_text(p) =~= "a="@ + value);
    lemma_digits_plain(p.payload_type as nat);
    lemma_digits_plain(p.sample_rate as nat);
    lemma_digits_plain(p.channels as nat);
    lemma_number_back(p.payload_type as nat, u8::MAX as int);
    lemma_number_back(p.sample_rate as nat, u32::MAX as int);
    lemma_number_back(p.channels as nat, u16::MAX as int);
    assert(value.last() == ch.last());
    lemma_attribute_line(c, value);
    assert("rtpmap:"@.is_prefix_of(value)) by {
        assert("rtpmap:"@ =~= value.subrange(0, "rtpmap:"@.len() as int));
    }
    assert(value.skip("rtpmap:"@.len() as int) =~= rest);
    let k = pt.len() as int;
    assert forall|i: int| 0 <= i < k implies !is_space(rest[i]) by {
        assert(rest[i] == pt[i]);
    }
    assert(rest[k] == ' ');
    lemma_first_space_is(rest, k);
    assert(rest.take(k) =~= pt);
    assert(rest.skip(k + 1) =~= spec_text);
    assert(spec_text[0] == 'L');
    assert(spec_text.last() == ch.last());
    lemma_trimmed_already(spec_text);
    assert(free_of(enc, '/'));
    lemma_split_one(ch, '/');
    lemma_split_more(rate, '/', ch);
    lemma_split_more(enc, '/', rate + slash + ch);
    assert(split(spec_text, '/') =~= seq![enc, rate, ch]);
}

proof fn lemma_ptime_line(c: Collected, ptime: Seq<char>)
    requires
        trimmed(ptime) == ptime,
        ptime.len() > 0 ==> ptime.last() != '\r',
    ensures
        take_line(c, ("a=ptime:"@ + ptime).push('\r')) == Ok::<Collected, SdpErrorView>(
            Collected { ptimes: c.ptimes.push(ptime), ..c },
        ),
{
    reveal_strlit("a=ptime:");
    reveal_strlit("a=");
    reveal_strlit("ptime:");
    reveal_strlit("rtpmap:");
    assert("a=ptime:"@ =~= "a="@ + "ptime:"@);
    let value = "ptime:"@ + ptime;
    assert("a=ptime:"@ + ptime =~= "a="@ + value);
    if ptime.len() > 0 {
        assert(value.last() == ptime.last());
    } else {
        assert(value.last() == ':');
    }
    lemma_attribute_line(c, value);
    assert(!"rtpmap:"@.is_prefix_of(value)) by {
        if "rtpmap:"@.is_prefix_of(value) {
            assert("rtpmap:"@[0] == value[0]);
        }
    }
    assert("ptime:"@.is_prefix_of(value)) by {
        assert("ptime:"@ =~= value.subrange(0, "ptime:"@.len() as int));
    }
    assert(value.skip("ptime:"@.len() as int) =~= ptime);
}

/// What a reference clock line says.
proof fn lemma_clock_line(c: Collected, spec_text: Seq<char>)
    requires
        spec_text.len() > 0,
        spec_text.last() != '\r',
        trimmed(spec_text) == spec_text,
    ensures
        take_line(c, ("a=ts-refclk:"@ + spec_text).push('\r')) == Ok::<Collected, SdpErrorView>(
            Collected { refclk: refclk_of(spec_text), ..c },
        ),
{
    reveal_strlit("a=ts-refclk:");
    reveal_strlit("a=");
    reveal_strlit("ts-refclk:");
    reveal_strlit("ptime:");
    reveal_strlit("rtpmap:");
    assert("a=ts-refclk:"@ =~= "a="@ + "ts-refclk:"@);
    let value = "ts-refclk:"@ + spec_text;
    assert("a=ts-refclk:"@ + spec_text =~= "a="@ + value);
    assert(value.last() == spec_text.last());
    lemma_attribute_line(c, value);
    assert(!"rtpmap:"@.is_prefix_of(value)) by {
        if "rtpmap:"@.is_prefix_of(value) {
            assert("rtpmap:"@[0] == value[0]);
        }
    }
    assert(!"ptime:"@.is_prefix_of(value)) by {
        if "ptime:"@.is_prefix_of(value) {
            assert("ptime:"@[0] == value[0]);
        }
    }
    assert("ts-refclk:"@.is_prefix_of(value)) by {
        assert("ts-refclk:"@ =~= value.subrange(0, "ts-refclk:"@.len() as int));
    }
    assert(value.skip("ts-refclk:"@.len() as int) =~= spec_text);
}

/// The version of PTP that is announced.
spec fn version() -> Seq<char> {
    seq!['I', 'E', 'E', 'E', '1', '5', '8', '8', '-', '2', '0', '0', '8']
}

proof fn lemma_named_clock(c: Collected, gmid: Seq<char>, domain: u8)
    requires
        free_of(gmid, ':'),
        gmid != "traceable"@,
    ensures
        take_line(
            c,
            ("a=ts-refclk:ptp=IEEE1588-2008:"@ + gmid + ":"@ + decimal(domain as nat)).push('\r'),
        ) == Ok::<Collected, SdpErrorView>(Collected { refclk: RefClockView::Ptp { gmid, domain }, ..c }),
{
    let d = decimal(domain as nat);
    let colon = seq![':'];
    reveal_strlit("a=ts-refclk:ptp=IEEE1588-2008:");
    reveal_strlit("a=ts-refclk:");
    reveal_strlit("ptp=");
    reveal_strlit(":");
    assert(":"@ =~= colon);
    let rest = version() + colon + (gmid + colon + d);
    let spec_text = "ptp="@ + rest;
    let line = "a=ts-refclk:ptp=IEEE1588-2008:"@ + gmid + ":"@ + d;
    assert("a=ts-refclk:ptp=IEEE1588-2008:"@ =~= "a=ts-refclk:"@ + ("ptp="@ + version() + colon));
    assert(line =~= "a=ts-refclk:"@ + spec_text);
    lemma_digits_plain(domain as nat);
    lemma_number_back(domain as nat, u8::MAX as int);
    assert(spec_text[0] == 'p');
    assert(spec_text.last() == d.last());
    lemma_trimmed_already(spec_text);
    lemma_clock_line(c, spec_text);
    assert("ptp="@.is_prefix_of(spec_text)) by {
        assert("ptp="@ =~= spec_text.subrange(0, "ptp="@.len() as int));
    }
    assert(spec_text.skip("ptp="@.len() as int) =~= rest);
    lemma_split_one(d, ':');
    lemma_split_more(gmid, ':', d);
    assert(free_of(version(), ':'));
    lemma_split_more(version(), ':', gmid + colon + d);
    assert(split(rest, ':') =~= seq![version(), gmid, d]);
}

proof fn lemma_traceable_clock(c: Collected)
    ensures
        take_line(c, "a=ts-refclk:ptp=IEEE1588-2008:traceable"@.push('\r')) == Ok::<Collected, SdpErrorView>(
            Collected { refclk: RefClockView::PtpTraceable, ..c },
        ),
{
    let colon = seq![':'];
    reveal_strlit("a=ts-refclk:ptp=IEEE1588-2008:traceable");
    reveal_strlit("a=ts-refclk:");
    reveal_strlit("ptp=");
    reveal_strlit("traceable");
    let rest = version() + colon + "traceable"@;
    let spec_text = "ptp="@ + rest;
    assert("a=ts-refclk:ptp=IEEE1588-2008:traceable"@ =~= "a=ts-refclk:"@ + spec_text);
    assert(spec_text[0] == 'p');
    assert(spec_text.last() == 'e');
    lemma_trimmed_already(spec_text);
    lemma_clock_line(c, spec_text);
    assert("ptp="@.is_prefix_of(spec_text)) by {
        assert("ptp="@ =~= spec_text.subrange(0, "ptp="@.len() as int));
    }
    assert(spec_text.skip("ptp="@.len() as int) =~= rest);
    assert(free_of("traceable"@, ':'));
    lemma_split_one("traceable"@, ':');
    assert(free_of(version(), ':'));
    lemma_split_more(version(), ':', "traceable"@);
    assert(split(rest, ':') =~= seq![version(), "traceable"@]);
}

proof fn lemma_mediaclk_line(c: Collected)
    ensures
        take_line(c, "a=mediaclk:direct=0"@.push('\r')) == Ok::<Collected, SdpErrorView>(c),
{
    reveal_strlit("a=mediaclk:direct=0");
    reveal_strlit("a=");
    reveal_strlit("rtpmap:");
    reveal_strlit("ptime:");
    reveal_strlit("ts-refclk:");
    reveal_strlit("sendonly");
    reveal_strlit("recvonly");
    reveal_strlit("sendrecv");
    let value = "a=mediaclk:direct=0"@.skip(2);
    assert("a=mediaclk:direct=0"@ =~= "a="@ + value);
    assert(value[0] == 'm' && value.last() == '0');
    lemma_attribute_line(c, value);
    lemma_no_prefix(value);
}

/// A value that begins otherwise has none of the known prefixes.
proof fn lemma_no_prefix(value: Seq<char>)
    requires
        value.len() > 2,
        value[0] != 'r' || value[1] != 't',
        value[0] != 'p',
        value[0] != 't',
    ensures
        after(value, "rtpmap:"@) is None,
        after(value, "ptime:"@) is None,
        after(value, "ts-refclk:"@) is None,
{
    reveal_strlit("rtpmap:");
    reveal_strlit("ptime:");
    reveal_strlit("ts-refclk:");
    if "rtpmap:"@.is_prefix_of(value) {
        assert("rtpmap:"@[0] == value[0]);
        assert("rtpmap:"@[1] == value[1]);
    }
    if "ptime:"@.is_prefix_of(value) {
        assert("ptime:"@[0] == value[0]);
    }
    if "ts-refclk:"@.is_prefix_of(value) {
        assert("ts-refclk:"@[0] == value[0]);
    }
}

proof fn lemma_direction_line(c: Collected, direction: Direction)
    ensures
        take_line(c, ("a="@ + direction.name()).push('\r')) == Ok::<Collected, SdpErrorView>(
            Collected { direction, ..c },
        ),
{
    reveal_strlit("sendonly");
    reveal_strlit("recvonly");
    reveal_strlit("sendrecv");
    let value = direction.name();
    lemma_attribute_line(c, value);
    lemma_no_prefix(value);
    assert("recvonly"@[0] != "sendonly"@[0]);
    assert("sendrecv"@[4] != "sendonly"@[4]);
    assert("sendrecv"@[0] != "recvonly"@[0]);
}

/// Whether a description can be written as lines: its texts keep to their lines, and a
/// grandmaster's name to its field.
pub open spec fn writable(p: PlainView, ptime: Seq<char>) -> bool {
    &&& free_of(p.session_name, '\n')
    &&& p.session_name.len() > 0 ==> p.session_name.last() != '\r'
    &&& p.refclk matches RefClockView::Ptp { gmid, domain } ==> {
        &&& free_of(gmid, '\n')
        &&& free_of(gmid, ':')
        &&& gmid != "traceable"@
    }
    &&& free_of(ptime, '\n')
    &&& trimmed(ptime) == ptime
    &&& ptime.len() > 0 ==> ptime.last() != '\r'
}

proof fn lemma_lines_keep_to_themselves(p: PlainView, ptime: Seq<char>)
    requires
        writable(p, ptime),
    ensures
        forall|i: int|
            0 <= i < sdp_lines(p, ptime).len() ==> free_of(#[trigger] sdp_lines(p, ptime)[i], '\n'),
{
    let lines = sdp_lines(p, ptime);
    let clock = refclk_lines(p.refclk);
    reveal_strlit("v=0");
    reveal_strlit("o=- ");
    reveal_strlit(" ");
    reveal_strlit(" IN IP4 ");
    reveal_strlit("s=");
    reveal_strlit("c=IN IP4 ");
    reveal_strlit("/");
    reveal_strlit("t=0 0");
    reveal_strlit("m=audio ");
    reveal_strlit(" RTP/AVP ");
    reveal_strlit("a=rtpmap:");
    reveal_strlit("L16");
    reveal_strlit("L24");
    reveal_strlit("a=ptime:");
    reveal_strlit("a=ts-refclk:ptp=IEEE1588-2008:");
    reveal_strlit(":");
    reveal_strlit("a=ts-refclk:ptp=IEEE1588-2008:traceable");
    reveal_strlit("a=mediaclk:direct=0");
    reveal_strlit("a=");
    reveal_strlit("sendonly");
    reveal_strlit("recvonly");
    reveal_strlit("sendrecv");
    lemma_digits_plain(p.session_id as nat);
    lemma_digits_plain(p.session_version as nat);
    lemma_digits_plain(p.ttl as nat);
    lemma_digits_plain(p.port as nat);
    lemma_digits_plain(p.payload_type as nat);
    lemma_digits_plain(p.sample_rate as nat);
    lemma_digits_plain(p.channels as nat);
    lemma_address_back(p.origin_addr);
    lemma_address_back(p.address);
    let n = '\n';
    let id = decimal(p.session_id as nat);
    let version = decimal(p.session_version as nat);
    lemma_free_join("o=- "@, id, n);
    lemma_free_join("o=- "@ + id, " "@, n);
    lemma_free_join("o=- "@ + id + " "@, version, n);
    lemma_free_join("o=- "@ + id + " "@ + version, " IN IP4 "@, n);
    lemma_free_join("o=- "@ + id + " "@ + version + " IN IP4 "@, address_text(p.origin_addr), n);
    lemma_free_join("s="@, p.session_name, n);
    lemma_free_join("c=IN IP4 "@, address_text(p.address), n);
    lemma_free_join("c=IN IP4 "@ + address_text(p.address), "/"@, n);
    lemma_free_join("c=IN IP4 "@ + address_text(p.address) + "/"@, decimal(p.ttl as nat), n);
    let port = decimal(p.port as nat);
    let pt = decimal(p.payload_type as nat);
    lemma_free_join("m=audio "@, port, n);
    lemma_free_join("m=audio "@ + port, " RTP/AVP "@, n);
    lemma_free_join("m=audio "@ + port + " RTP/AVP "@, pt, n);
    let enc = p.encoding.name();
    let rate = decimal(p.sample_rate as nat);
    let map = "a=rtpmap:"@;
    lemma_free_join(map, pt, n);
    lemma_free_join(map + pt, " "@, n);
    lemma_free_join(map + pt + " "@, enc, n);
    lemma_free_join(map + pt + " "@ + enc, "/"@, n);
    lemma_free_join(map + pt + " "@ + enc + "/"@, rate, n);
    lemma_free_join(map + pt + " "@ + enc + "/"@ + rate, "/"@, n);
    lemma_free_join(map + pt + " "@ + enc + "/"@ + rate + "/"@, decimal(p.channels as nat), n);
    lemma_free_join("a=ptime:"@, ptime, n);
    lemma_free_join("a="@, p.direction.name(), n);
    if let RefClockView::Ptp { gmid, domain } = p.refclk {
        lemma_digits_plain(domain as nat);
        let head = "a=ts-refclk:ptp=IEEE1588-2008:"@;
        lemma_free_join(head, gmid, n);
        lemma_free_join(head + gmid, ":"@, n);
        lemma_free_join(head + gmid + ":"@, decimal(domain as nat), n);
    }
    assert forall|i: int| 0 <= i < lines.len() implies free_of(#[trigger] lines[i], '\n') by {
        if i >= 8 && i < 8 + clock.len() {
            assert(lines[i] == clock[i - 8]);
        }
    }
}

proof fn lemma_free_join(a: Seq<char>, b: Seq<char>, c: char)
    requires
        free_of(a, c),
        free_of(b, c),
    ensures
        free_of(a + b, c),
{
    let s = a + b;
    assert forall|i: int| 0 <= i < s.len() implies #[trigger] s[i] != c by {
        if i < a.len() {
            assert(s[i] == a[i]);
        } else {
            assert(s[i] == b[i - a.len()]);
        }
    }
}

/// What a document says after its first eight lines.
spec fn head_collected(p: PlainView, ptime: Seq<char>) -> Collected {
    Collected {
        session_name: p.session_name,
        origin_addr: p.origin_addr,
        session_id: p.session_id,
        session_version: p.session_version,
        address: Some(p.address),
        ttl: p.ttl,
        port: Some(p.port),
        payload_type: Some(p.payload_type),
        maps: seq![announced_map(p)],
        ptimes: seq![ptime],
        refclk: RefClockView::Unspecified,
        direction: Direction::SendOnly,
    }
}

proof fn lemma_head(p: PlainView, ptime: Seq<char>, raw: Seq<Seq<char>>)
    requires
        writable(p, ptime),
        raw == with_returns(sdp_lines(p, ptime)).push(Seq::empty()),
    ensures
        collect(raw, 8) == Ok::<Collected, SdpErrorView>(head_collected(p, ptime)),
{
    let lines = sdp_lines(p, ptime);
    let c0 = nothing_collected();
    assert(collect(raw, 0) == Ok::<Collected, SdpErrorView>(c0));
    assert(raw[0] == "v=0"@.push('\r'));
    lemma_fixed_lines(c0);
    assert(collect(raw, 1) == Ok::<Collected, SdpErrorView>(c0));
    assert(raw[1] == origin_text(p).push('\r'));
    lemma_origin_line(c0, p);
    let c1 = Collected {
        session_id: p.session_id,
        session_version: p.session_version,
        origin_addr: p.origin_addr,
        ..c0
    };
    assert(collect(raw, 2) == Ok::<Collected, SdpErrorView>(c1));
    assert(raw[2] == ("s="@ + p.session_name).push('\r'));
    lemma_name_line(c1, p.session_name);
    let c2 = Collected { session_name: p.session_name, ..c1 };
    assert(collect(raw, 3) == Ok::<Collected, SdpErrorView>(c2));
    assert(raw[3] == lines[3].push('\r'));
    lemma_connection_line(c2, p.address, p.ttl);
    let c3 = Collected { address: Some(p.address), ttl: p.ttl, ..c2 };
    assert(collect(raw, 4) == Ok::<Collected, SdpErrorView>(c3));
    assert(raw[4] == "t=0 0"@.push('\r'));
    lemma_fixed_lines(c3);
    assert(collect(raw, 5) == Ok::<Collected, SdpErrorView>(c3));
    assert(raw[5] == lines[5].push('\r'));
    lemma_media_line(c3, p.port, p.payload_type);
    let c5 = Collected { port: Some(p.port), payload_type: Some(p.payload_type), ..c3 };
    assert(collect(raw, 6) == Ok::<Collected, SdpErrorView>(c5));
    assert(raw[6] == rtpmap_text(p).push('\r'));
    lemma_rtpmap_line(c5, p);
    let c6 = Collected { maps: c5.maps.push(announced_map(p)), ..c5 };
    assert(c6.maps =~= seq![announced_map(p)]);
    assert(collect(raw, 7) == Ok::<Collected, SdpErrorView>(c6));
    assert(raw[7] == ("a=ptime:"@ + ptime).push('\r'));
    lemma_ptime_line(c6, ptime);
    assert(c6.ptimes.push(ptime) =~= seq![ptime]);
    assert(collect(raw, 8) == Ok::<Collected, SdpErrorView>(head_collected(p, ptime)));
}

proof fn lemma_tail(p: PlainView, ptime: Seq<char>, raw: Seq<Seq<char>>)
    requires
        writable(p, ptime),
        raw == with_returns(sdp_lines(p, ptime)).push(Seq::empty()),
    ensures
        collect(raw, raw.len() as int) == Ok::<Collected, SdpErrorView>(
            Collected { refclk: p.refclk, direction: p.direction, ..head_collected(p, ptime) },
        ),
{
    let lines = sdp_lines(p, ptime);
    let h = head_collected(p, ptime);
    lemma_head(p, ptime, raw);
    let c1 = Collected { refclk: p.refclk, ..h };
    let n: int = match p.refclk {
        RefClockView::Ptp { gmid, domain } => {
            lemma_named_clock(h, gmid, domain);
            assert(raw[8] == lines[8].push('\r'));
            assert(collect(raw, 9) == Ok::<Collected, SdpErrorView>(c1));
            9
        },
        RefClockView::PtpTraceable => {
            lemma_traceable_clock(h);
            assert(raw[8] == lines[8].push('\r'));
            assert(collect(raw, 9) == Ok::<Collected, SdpErrorView>(c1));
            9
        },
        RefClockView::Unspecified => {
            assert(c1 == h);
            8
        },
    };
    assert(collect(raw, n) == Ok::<Collected, SdpErrorView>(c1));
    assert(raw[n] == "a=mediaclk:direct=0"@.push('\r'));
    lemma_mediaclk_line(c1);
    assert(collect(raw, n + 1) == Ok::<Collected, SdpErrorView>(c1));
    assert(raw[n + 1] == ("a="@ + p.direction.name()).push('\r'));
    lemma_direction_line(c1, p.direction);
    let c2 = Collected { direction: p.direction, ..c1 };
    assert(collect(raw, n + 2) == Ok::<Collected, SdpErrorView>(c2));
    assert(raw.len() == n + 3);
    assert(raw[n + 2] == Seq::<char>::empty());
    assert(strip_returns(raw[n + 2]) == raw[n + 2]);
    assert(first_of(raw[n + 2], '=') == 0);
    assert(take_line(c2, raw[n + 2]) == Ok::<Collected, SdpErrorView>(c2));
}

/// A description that was written reads back as it was, in every field, and its packet
/// time from the very text that was written.
pub proof fn law_description_round_trips(p: PlainView, ptime: Seq<char>)
    requires
        writable(p, ptime),
    ensures
        collected(joined(sdp_lines(p, ptime))) matches Ok(c) && conclude(c) == Ok::<PlainView, SdpErrorView>(p)
            && c.ptimes == seq![ptime],
{
    let lines = sdp_lines(p, ptime);
    lemma_lines_keep_to_themselves(p, ptime);
    lemma_lines_apart(lines);
    let raw = split(joined(lines), '\n');
    lemma_tail(p, ptime, raw);
    reveal_strlit("L24");
    reveal_strlit("L16");
    assert(upper("L24"@) =~= "L24"@);
    assert(upper("L16"@) =~= "L16"@);
    assert("L24"@[1] != "L16"@[1]);
}

/// Whether a packet time is read back from every text that it may be announced by.
pub open spec fn ptime_reads_back<S: PacketTime>(x: S) -> bool {
    forall|text: Seq<char>, r: Option<S>|
        #![trigger ptime_text_is(x, text), read_is(text, r)]
        ptime_text_is(x, text) && read_is(text, r) ==> r == Some(x)
}

/// Parsing undoes writing: what was written reads back as it was, in every field. The packet
/// time does so where the number reads back from its own text.
pub proof fn law_parse_undoes_to_sdp<S: PacketTime>(
    d: StreamDescription<S>,
    text: Seq<char>,
    r: Result<StreamDescription<S>, SdpError>,
)
    requires
        written_is(d, text),
        parsed_is(text, r),
        forall|ptime: Seq<char>| #[trigger] ptime_text_is(d.ptime_ms, ptime) ==> writable(d.plain(), ptime),
    ensures
        r matches Ok(e) && e.plain() == d.plain() && (ptime_reads_back(d.ptime_ms) ==> e.ptime_ms == d.ptime_ms),
{
    let ptime = choose|ptime: Seq<char>| #[trigger]
        ptime_text_is(d.ptime_ms, ptime) && text == joined(sdp_lines(d.plain(), ptime));
    law_description_round_trips(d.plain(), ptime);
    if let Ok(e) = r {
        law_announced_ptime_is_read(ptime, e.ptime_ms);
    }
}

/// Every line that is written ends in a carriage return and a line feed, and no line feed
/// stands anywhere else.
pub proof fn law_lines_end_in_crlf(p: PlainView, ptime: Seq<char>)
    requires
        writable(p, ptime),
    ensures
        split(joined(sdp_lines(p, ptime)), '\n') == with_returns(sdp_lines(p, ptime)).push(Seq::empty()),
{
    lemma_lines_keep_to_themselves(p, ptime);
    lemma_lines_apart(sdp_lines(p, ptime));
}

/// One announced packet time is what reading its text gives, and one millisecond where it
/// cannot be read.
pub proof fn law_announced_ptime_is_read<S: PacketTime>(text: Seq<char>, x: S)
    requires
        ptime_read(seq![text], x),
    ensures
        exists|r: Option<S>| #[trigger]
            read_is(text, r) && (r is Some ==> x == r->0) && (r is None ==> whole_is(1, x)),
{
    let reads = choose|reads: Seq<Option<S>>| #[trigger] each_read(seq![text], reads) && last_read(reads, x);
    let r = reads[0];
    assert(read_is(seq![text][0], r));
    assert(reads.last() == r);
    if r is None {
        assert(reads.drop_last() =~= Seq::<Option<S>>::empty());
        assert(last_read(reads.drop_last(), x));
    }
}

/// Whole milliseconds are written so that they can be read: a run of digits.
pub proof fn law_whole_ptime_is_writable(n: nat)
    ensures
        free_of(decimal(n), '\n'),
        trimmed(decimal(n)) == decimal(n),
        decimal(n).last() != '\r',
{
    lemma_digits_plain(n);
    lemma_decimal(n);
    lemma_trimmed_already(decimal(n));
}

} // verus!
