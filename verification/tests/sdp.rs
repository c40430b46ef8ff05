//! Session descriptions.

use squawk::ptp::servo::MediaClock;
use squawk::rtp::addressing::Ipv4Addr;
use squawk::rtp::scan::{parse_address, parse_number, space};
use squawk::rtp::sdp::{
    Direction, Encoding, PacketTime, RefClock, SdpError, StreamDescription, DEFAULT_RTP_PORT, DEFAULT_TTL,
};
use squawk::sample::Sample;

/// Single precision.
#[derive(Clone, Copy, Debug, PartialEq)]
struct F(f32);

impl Sample for F {
    fn from_bits(bits: u32) -> F {
        F(f32::from_bits(bits))
    }
    fn whole(n: i64) -> F {
        F(n as f32)
    }
    fn plus(self, other: F) -> F {
        F(self.0 + other.0)
    }
    fn minus(self, other: F) -> F {
        F(self.0 - other.0)
    }
    fn times(self, other: F) -> F {
        F(self.0 * other.0)
    }
    fn over(self, other: F) -> F {
        F(self.0 / other.0)
    }
    fn power(self, exponent: F) -> F {
        F(self.0.powf(exponent.0))
    }
    fn exponential(self) -> F {
        F(self.0.exp())
    }
    fn logarithm(self) -> F {
        F(self.0.log10())
    }
    fn magnitude(self) -> F {
        F(self.0.abs())
    }
    fn greater(self, other: F) -> F {
        F(self.0.max(other.0))
    }
    fn lesser(self, other: F) -> F {
        F(self.0.min(other.0))
    }
    fn exceeds(self, other: F) -> bool {
        self.0 > other.0
    }
    fn at_most(self, other: F) -> bool {
        self.0 <= other.0
    }
    fn equals(self, other: F) -> bool {
        self.0 == other.0
    }
    fn negated(self) -> F {
        F(-self.0)
    }
    fn rounded(self) -> F {
        F(self.0.round())
    }
    fn fraction(self) -> F {
        F(self.0.fract())
    }
    fn truncated(self) -> i128 {
        self.0 as i128
    }
}

impl PacketTime for F {
    fn read(text: &str) -> Option<F> {
        text.parse().ok().map(F)
    }
    fn three_places(self) -> String {
        format!("{:.3}", self.0)
    }
}

type Description = StreamDescription<F>;

fn sample() -> Description {
    StreamDescription::mono_l24(
        "squawk Stage Left K0",
        Ipv4Addr::new(192, 168, 1, 10),
        Ipv4Addr::new(239, 69, 0, 1),
        96,
        1311738121,
    )
}

#[test]
fn a_generated_description_round_trips() {
    let d = sample();
    let parsed = Description::parse(&d.to_sdp()).unwrap();
    assert_eq!(parsed, d);
}

#[test]
fn generated_sdp_carries_the_lines_aes67_requires() {
    let text = sample().to_sdp();
    for want in [
        "v=0",
        "c=IN IP4 239.69.0.1/32",
        "m=audio 5004 RTP/AVP 96",
        "a=rtpmap:96 L24/48000/1",
        "a=ptime:1",
        "a=ts-refclk:ptp=IEEE1588-2008:traceable",
        "a=mediaclk:direct=0",
        "a=sendonly",
    ] {
        assert!(text.contains(want), "missing {want:?} in:\n{text}");
    }
    assert!(text.contains("\r\n"), "RFC 4566 wants CRLF line endings");
}

#[test]
fn the_whole_document_is_as_expected() {
    let mut d = sample();
    d.refclk = RefClock::Ptp { gmid: "00-1D-C1-FF-FE-12-34-56".to_string(), domain: 7 };
    d.direction = Direction::SendRecv;
    d.encoding = Encoding::L16;
    d.channels = 2;
    assert_eq!(
        d.to_sdp(),
        "v=0\r\n\
         o=- 1311738121 1311738121 IN IP4 192.168.1.10\r\n\
         s=squawk Stage Left K0\r\n\
         c=IN IP4 239.69.0.1/32\r\n\
         t=0 0\r\n\
         m=audio 5004 RTP/AVP 96\r\n\
         a=rtpmap:96 L16/48000/2\r\n\
         a=ptime:1\r\n\
         a=ts-refclk:ptp=IEEE1588-2008:00-1D-C1-FF-FE-12-34-56:7\r\n\
         a=mediaclk:direct=0\r\n\
         a=sendrecv\r\n"
    );
    assert_eq!(Description::parse(&d.to_sdp()).unwrap(), d);
    d.refclk = RefClock::Unspecified;
    d.direction = Direction::RecvOnly;
    assert!(!d.to_sdp().contains("ts-refclk"));
    assert_eq!(Description::parse(&d.to_sdp()).unwrap(), d);
}

#[test]
fn a_whole_millisecond_ptime_has_no_decimal_point() {
    assert!(sample().to_sdp().contains("a=ptime:1\r\n"));
    let mut d = sample();
    d.ptime_ms = F(4.0);
    assert!(d.to_sdp().contains("a=ptime:4\r\n"));
}

#[test]
fn a_sub_millisecond_ptime_survives_the_round_trip() {
    let mut d = sample();
    d.ptime_ms = F(0.125);
    assert!(d.to_sdp().contains("a=ptime:0.125"));
    let parsed = Description::parse(&d.to_sdp()).unwrap();
    assert_eq!(parsed.ptime_ms, F(0.125));
    assert_eq!(parsed.ptime_samples(), 6);
}

#[test]
fn sdp_packet_geometry_matches_the_aes67_default() {
    let d = sample();
    assert_eq!(d.ptime_samples(), 48, "1 ms at 48 kHz");
    assert_eq!(d.payload_bytes(), 144, "48 mono samples of L24");
    assert_eq!(d.checked_payload_bytes(), Some(144));
    assert_eq!(d.port, DEFAULT_RTP_PORT);
    assert_eq!(d.ttl, DEFAULT_TTL);
}

#[test]
fn servo_packet_geometry_matches_the_aes67_default() {
    let mc = MediaClock::new(48_000);
    assert_eq!(mc.samples_per_ptime(F(1.0)), 48);
    assert_eq!(mc.samples_per_ptime(F(0.125)), 6);
    assert_eq!(mc.samples_per_ptime(F(4.0)), 192);
}

#[test]
fn a_packet_time_beyond_counting_saturates() {
    let mc = MediaClock::new(48_000);
    assert_eq!(mc.samples_per_ptime(F(1.0e30)), usize::MAX);
    assert_eq!(mc.samples_per_ptime(F(f32::INFINITY)), usize::MAX);
    assert_eq!(mc.samples_per_ptime(F(-1.0)), 0);
    assert_eq!(mc.samples_per_ptime(F(f32::NAN)), 0);
    // 2^63 samples and then some, which only an unsigned count holds.
    assert_eq!(MediaClock::new(1_000).samples_per_ptime(F(1.0e19)), 1.0e19f32 as usize);
}

#[test]
fn a_packet_time_without_a_whole_part_is_written_to_three_places() {
    let mut d = sample();
    d.ptime_ms = F(f32::INFINITY);
    assert!(d.to_sdp().contains("a=ptime:inf\r\n"));
    d.ptime_ms = F(f32::NAN);
    assert!(d.to_sdp().contains("a=ptime:NaN\r\n"));
    d.ptime_ms = F(0.3333);
    assert!(d.to_sdp().contains("a=ptime:0.333\r\n"));
}

#[test]
fn a_payload_too_large_to_count_is_not_counted() {
    let mut d = sample();
    d.ptime_ms = F(1.0e30);
    d.channels = u16::MAX;
    assert_eq!(d.checked_payload_bytes(), None);
}

#[test]
fn parses_a_third_party_announcement_with_a_named_grandmaster() {
    let text = "v=0\r\n\
                o=- 3745 3745 IN IP4 10.0.0.42\r\n\
                s=Console Out 1-2\r\n\
                i=an informational line we should ignore\r\n\
                c=IN IP4 239.254.10.5/15\r\n\
                t=0 0\r\n\
                a=recvonly\r\n\
                m=audio 5004 RTP/AVP 97\r\n\
                a=rtpmap:97 L24/48000/2\r\n\
                a=mediaclk:direct=0\r\n\
                a=ts-refclk:ptp=IEEE1588-2008:00-1D-C1-FF-FE-12-34-56:0\r\n\
                a=ptime:1\r\n";
    let d = Description::parse(text).unwrap();

    assert_eq!(d.session_name, "Console Out 1-2");
    assert_eq!(d.address, Ipv4Addr::new(239, 254, 10, 5));
    assert_eq!(d.ttl, 15);
    assert_eq!(d.payload_type, 97);
    assert_eq!(d.encoding, Encoding::L24);
    assert_eq!(d.channels, 2);
    assert_eq!(d.direction, Direction::RecvOnly);
    assert_eq!(d.refclk, RefClock::Ptp { gmid: "00-1D-C1-FF-FE-12-34-56".into(), domain: 0 });
    assert_eq!(d.payload_bytes(), 288, "48 frames x 2 channels x 3 bytes");
    assert_eq!(d.session_id, 3745);
    assert_eq!(d.origin_addr, Ipv4Addr::new(10, 0, 0, 42));
}

#[test]
fn an_rtpmap_without_a_channel_count_means_mono() {
    let text = "v=0\nc=IN IP4 239.1.2.3\nm=audio 5004 RTP/AVP 96\na=rtpmap:96 L16/48000\n";
    let d = Description::parse(text).unwrap();
    assert_eq!(d.channels, 1);
    assert_eq!(d.encoding, Encoding::L16);
    assert_eq!(d.payload_bytes(), 96, "48 mono samples of L16");
}

#[test]
fn a_mapping_for_another_payload_type_does_not_count() {
    let text = "v=0\nc=IN IP4 239.1.2.3\nm=audio 5004 RTP/AVP 96\na=rtpmap:97 L24/48000/1\n";
    assert_eq!(Description::parse(text), Err(SdpError::NoRtpmap(96)));
}

#[test]
fn of_several_mappings_the_stream_takes_its_own() {
    let text = "v=0\nc=IN IP4 239.1.2.3\nm=audio 5004 RTP/AVP 96\n\
                a=rtpmap:97 opus/48000/2\na=rtpmap:96 L24/96000/2\na=rtpmap:98 L16/44100\n";
    let d = Description::parse(text).unwrap();
    assert_eq!((d.payload_type, d.encoding), (96, Encoding::L24));
    assert_eq!((d.sample_rate, d.channels), (96_000, 2));
    // The order of the lines does not matter.
    let text = "v=0\nc=IN IP4 239.1.2.3\na=rtpmap:98 L16/44100\na=rtpmap:96 L24/96000/2\n\
                m=audio 5004 RTP/AVP 96\n";
    assert_eq!(Description::parse(text).unwrap(), d);
}

#[test]
fn bare_lf_line_endings_parse() {
    let text = "v=0\nc=IN IP4 239.1.2.3\nm=audio 5004 RTP/AVP 96\na=rtpmap:96 L24/48000/1\n";
    assert!(Description::parse(text).is_ok());
}

#[test]
fn a_missing_connection_or_media_line_is_rejected() {
    let no_media = "v=0\r\nc=IN IP4 239.1.2.3\r\n";
    assert_eq!(Description::parse(no_media), Err(SdpError::NoAudioMedia));

    let no_conn = "v=0\r\nm=audio 5004 RTP/AVP 96\r\na=rtpmap:96 L24/48000/1\r\n";
    assert_eq!(Description::parse(no_conn), Err(SdpError::NoConnection));
}

#[test]
fn a_compressed_payload_is_rejected_rather_than_mangled() {
    let text = "v=0\nc=IN IP4 239.1.2.3\nm=audio 5004 RTP/AVP 96\na=rtpmap:96 opus/48000/2\n";
    assert_eq!(Description::parse(text), Err(SdpError::UnsupportedEncoding("OPUS".into())));
}

#[test]
fn a_sender_that_names_no_clock_is_reported_as_unspecified() {
    let text = "v=0\nc=IN IP4 239.1.2.3\nm=audio 5004 RTP/AVP 96\na=rtpmap:96 L24/48000/1\n";
    assert_eq!(Description::parse(text).unwrap().refclk, RefClock::Unspecified);
}

#[test]
fn what_makes_a_stream_unusable_is_rejected_and_says_why() {
    let body = "c=IN IP4 239.1.2.3\nm=audio 5004 RTP/AVP 96\n";
    let missing = Description::parse(body).unwrap_err();
    assert_eq!(missing, SdpError::NoRtpmap(96));
    assert_eq!(missing.text(), "no a=rtpmap for payload type 96");

    let bad = Description::parse("c=IN IP4 239.1.2.300/5\n").unwrap_err();
    assert_eq!(bad, SdpError::Malformed { field: "connection address", value: "239.1.2.300".to_string() });
    assert_eq!(bad.text(), "malformed connection address: 239.1.2.300");

    let bad = Description::parse("m=audio 70000 RTP/AVP 96\n").unwrap_err();
    assert_eq!(bad.text(), "malformed media port: 70000");
    let bad = Description::parse("m=audio 5004 RTP/AVP 256\n").unwrap_err();
    assert_eq!(bad.text(), "malformed payload type: 256");

    assert_eq!(
        SdpError::UnsupportedEncoding("OPUS".to_string()).text(),
        "unsupported encoding 'OPUS'; AES67 mandates L16 or L24"
    );
    assert_eq!(SdpError::NoAudioMedia.text(), "no m=audio line, so this describes no audio stream");
    assert_eq!(
        SdpError::NoConnection.text(),
        "no c= connection line, so there is no address to receive from"
    );
}

#[test]
fn what_is_optional_falls_back() {
    let text = "o=- x y IN IP4 nowhere\n\
                s=a=b\r\r\n\
                c=IN IP4 239.1.2.3/999\n\
                m=video 1 RTP/AVP 2\n\
                m=audio +5006 RTP/AVP 96\n\
                a=rtpmap:x L16/8000\n\
                a=rtpmap:96\u{a0} l24/fast/many \n\
                a=ptime: 0.25 \n\
                a=ptime:soon\n\
                a=ts-refclk:localmac=00\n\
                a=nothing we know\n\
                junk";
    let d = Description::parse(text).unwrap();
    assert_eq!(d.session_id, 0);
    assert_eq!(d.origin_addr, Ipv4Addr::new(0, 0, 0, 0));
    assert_eq!(d.session_name, "a=b");
    assert_eq!(d.ttl, DEFAULT_TTL);
    assert_eq!(d.port, 5006);
    assert_eq!(d.encoding, Encoding::L24);
    assert_eq!((d.sample_rate, d.channels), (48_000, 1));
    assert_eq!(d.ptime_ms, F(0.25));
    assert_eq!(d.refclk, RefClock::Unspecified);
    assert_eq!(d.direction, Direction::SendOnly);
}

#[test]
fn white_space_is_what_unicode_says() {
    for n in 0..=0x10FFFFu32 {
        if let Some(c) = char::from_u32(n) {
            assert_eq!(space(c), c.is_whitespace(), "U+{n:04X}");
        }
    }
}

#[test]
fn numbers_and_addresses_read_as_std_reads_them() {
    for text in ["0", "7", "+7", "-7", "", "+", "007", "255", "256", "1x", "99999999999999999999999"] {
        let chars: Vec<char> = text.chars().collect();
        assert_eq!(parse_number(&chars, 255), text.parse::<u8>().ok().map(|n| n as u64), "{text}");
        assert_eq!(parse_number(&chars, u64::MAX), text.parse::<u64>().ok(), "{text}");
    }
    let read = |text: &str| parse_address(&text.chars().collect::<Vec<char>>());
    assert_eq!(read("239.69.0.1"), Some(0xEF45_0001));
    assert_eq!(read("0.0.0.0"), Some(0));
    assert_eq!(read("255.255.255.255"), Some(u32::MAX));
    for bad in ["", "1.2.3", "1.2.3.4.5", "01.2.3.4", "1.2.3.256", "1.2.3.4 ", "1..3.4", "a.b.c.d", "1.2.3.0004"] {
        assert_eq!(read(bad), None, "{bad}");
    }
}
