//! Which streams there are, and what goes in and out on them.

use vstd::prelude::*;

use crate::config::model::{Config, EndpointKind};
use crate::engine::mixer::Engine;
use crate::engine::plan::StreamRoute;
use crate::engine::rows::{chunk, lemma_row_inside};
use crate::ptp::wire_laws::{four, two};
use crate::rtp::addressing::Ipv4Addr;
use crate::rtp::jitter::{drift_is, pulled, Pull};
use crate::rtp::packet::coded;
use crate::rtp::stream_laws::{
    law_datagrams_are_taken_in_turn, law_nothing_received_changes_nothing, law_rtp_header_bytes,
    law_samples_are_coded_in_three_bytes, sample_number,
};
use crate::rtp::transport::{next_header, polled, received, ReceiverView, SenderView};
use crate::sample::{exact, whole_is, Sample};
use crate::server::audio_io::{
    datagrams_taken, failure_counted, input_pulled, inputs_pulled, is_audio, key_fresh, key_groups, listening,
    mic_fresh, mic_groups, packet_for, packets_made, stream_sent, AudioIo, AudioView, StreamHealth,
};

verus! {

/// Whether an endpoint of this kind is on the multicast network: everything but phones and
/// browsers.
pub open spec fn on_the_network(kind: EndpointKind) -> bool {
    kind is Desktop || kind is Hardware || kind is Aes67External
}

/// Every endpoint on the network has a microphone group, numbered by its position from
/// 239.69.128.0 on, and nobody else has one.
pub proof fn law_microphones_have_their_groups(config: &Config, r: Vec<Option<Ipv4Addr>>, i: int)
    requires
        call_ensures(mic_groups, (config,), r),
        0 <= i < config@.endpoints.len(),
        i < 3276,
    ensures
        r@.len() == config@.endpoints.len(),
        r@[i] is Some <==> on_the_network(config@.endpoints[i].kind),
        r@[i] matches Some(g) ==> g.bits == 239 * 0x100_0000 + 69 * 0x1_0000 + 128 * 0x100 + i,
{
}

/// Every stream of an endpoint on the network has a group, numbered ten to an endpoint from
/// 239.69.0.0 on, and no other stream has one.
pub proof fn law_streams_have_their_groups(
    config: &Config,
    routes: &[StreamRoute],
    r: Vec<Option<Ipv4Addr>>,
    s: int,
)
    requires
        call_ensures(key_groups, (config, routes), r),
        0 <= s < routes@.len(),
        routes@[s].endpoint < 3276,
        routes@[s].slot < 10,
    ensures
        r@.len() == routes@.len(),
        r@[s] is Some <==> on_the_network(config@.endpoints[routes@[s].endpoint as int].kind),
        r@[s] matches Some(g) ==> g.bits == 239 * 0x100_0000 + 69 * 0x1_0000 + 10 * routes@[s].endpoint
            + routes@[s].slot,
{
}

/// Every endpoint on the network has a receiver that has heard nobody, and every stream to one
/// has a sender with payload type 96 and the source number of its key; nothing has failed yet.
pub proof fn law_streams_are_bound<S: Sample>(config: &Config, engine: &Engine<S>, depth: usize, io: AudioIo<S>)
    requires
        call_ensures(AudioIo::<S>::new, (config, engine, depth), io),
    ensures
        io@.block == engine@.block,
        io@.send_errors == 0,
        io@.mics.len() == config@.endpoints.len(),
        io@.endpoint_ids.len() == config@.endpoints.len(),
        io@.keys.len() == engine@.keys.len(),
        forall|i: int|
            0 <= i < io@.mics.len() ==> {
                let kind = config@.endpoints[i].kind;
                &&& #[trigger] io@.mics[i] is Some <==> on_the_network(kind)
                &&& io@.endpoint_ids[i] == config@.endpoints[i].id
                &&& io@.mics[i] matches Some(rx) ==> rx.ssrc is None && rx.foreign == 0 && !rx.jitter.started
                    && rx.jitter.block == engine@.block && rx.jitter.target == (if depth == 0 {
                    1
                } else {
                    depth as int
                })
            },
        forall|s: int|
            0 <= s < io@.keys.len() ==> {
                let k = engine@.keys[s];
                let kind = config@.endpoints[k.endpoint as int].kind;
                &&& #[trigger] io@.keys[s] is Some <==> on_the_network(kind)
                &&& io@.keys[s] matches Some(tx) ==> {
                    &&& tx.payload_type == 96
                    &&& tx.block == engine@.block
                    &&& k.endpoint < 4096 && k.slot < 16 ==> tx.ssrc == 0x5157_0000 + 16 * k.endpoint + k.slot
                    &&& tx.timestamp == tx.ssrc
                    &&& tx.sequence == tx.ssrc as int % 65536
                }
            },
{
    assert forall|i: int| 0 <= i < io@.mics.len() implies ({
        let kind = config@.endpoints[i].kind;
        &&& #[trigger] io@.mics[i] is Some <==> on_the_network(kind)
        &&& io@.endpoint_ids[i] == config@.endpoints[i].id
        &&& io@.mics[i] matches Some(rx) ==> rx.ssrc is None && rx.foreign == 0 && !rx.jitter.started
            && rx.jitter.block == engine@.block && rx.jitter.target == (if depth == 0 {
            1
        } else {
            depth as int
        })
    }) by {
        assert(mic_fresh(config@, i, engine@.block, depth as int, io@.mics[i]));
    }
    assert forall|s: int| 0 <= s < io@.keys.len() implies ({
        let k = engine@.keys[s];
        let kind = config@.endpoints[k.endpoint as int].kind;
        &&& #[trigger] io@.keys[s] is Some <==> on_the_network(kind)
        &&& io@.keys[s] matches Some(tx) ==> {
            &&& tx.payload_type == 96
            &&& tx.block == engine@.block
            &&& k.endpoint < 4096 && k.slot < 16 ==> tx.ssrc == 0x5157_0000 + 16 * k.endpoint + k.slot
            &&& tx.timestamp == tx.ssrc
            &&& tx.sequence == tx.ssrc as int % 65536
        }
    }) by {
        let k = engine@.keys[s];
        assert(key_fresh(
            config@,
            StreamRoute { endpoint: k.endpoint, slot: k.slot },
            engine@.block,
            io@.keys[s],
        ));
    }
}

/// The engine hears at each endpoint's place what that endpoint's receiver gives, and nothing
/// at the place of one that has none. A block that is queued is heard as it came, whoever else
/// there is.
pub proof fn law_inputs_are_what_was_received<S: Sample>(
    val: spec_fn(S) -> real,
    before: AudioView<S>,
    out: Seq<S>,
    after: AudioView<S>,
    i: int,
    j: int,
)
    requires
        exact(val),
        inputs_pulled(before, out, after),
        0 <= i < before.mics.len(),
        0 <= j < before.block,
    ensures
        out.len() == before.mics.len() * before.block,
        after.mics.len() == before.mics.len(),
        after.keys == before.keys,
        after.send_errors == before.send_errors,
        after.block == before.block,
        after.endpoint_ids == before.endpoint_ids,
        before.mics[i] is None ==> after.mics[i] is None && val(out[i * before.block + j]) == 0 as real,
        before.mics[i] matches Some(rx) ==> {
            &&& after.mics[i] matches Some(now)
            &&& now.ssrc == rx.ssrc
            &&& now.foreign == rx.foreign
            &&& !rx.jitter.started ==> now.jitter == rx.jitter && val(out[i * before.block + j]) == 0 as real
            &&& rx.jitter.started ==> now.jitter.playout == (rx.jitter.playout + rx.jitter.block) % 0x1_0000_0000
            &&& rx.jitter.started && rx.jitter.queue[0] is Some ==> {
                &&& out[i * before.block + j] == (rx.jitter.queue[0]->0)[j]
                &&& now.jitter.last_good == rx.jitter.queue[0]->0
                &&& now.jitter.run == 0
                &&& now.jitter.stats.lost == rx.jitter.stats.lost
            }
        },
{
    let row = chunk(out, i, before.block);
    lemma_row_inside(i, before.mics.len() as int, before.block);
    assert(row[j] == out[i * before.block + j]);
    assert(input_pulled(before.mics[i], row, after.mics[i]));
    if before.mics[i] is None {
        assert(whole_is(0, row[j]));
    } else {
        let rx = before.mics[i]->0;
        let now = after.mics[i]->0;
        let r = choose|r: Pull| #[trigger] pulled(rx.jitter, row, r, now.jitter);
        if !rx.jitter.started {
            assert(whole_is(0, row[j]));
        }
    }
}

/// Datagrams of one endpoint change that endpoint's receiver and no other; nothing is taken for
/// an endpoint that has none. What came to nobody changes nothing.
pub proof fn law_datagrams_go_to_their_endpoint<S: Sample>(
    before: AudioView<S>,
    endpoint: int,
    datagrams: Seq<Vec<u8>>,
    after: AudioView<S>,
    accepted: int,
)
    requires
        datagrams_taken(before, endpoint, datagrams, after, accepted),
        0 <= endpoint < before.mics.len(),
    ensures
        after.block == before.block,
        after.keys == before.keys,
        after.endpoint_ids == before.endpoint_ids,
        after.send_errors == before.send_errors,
        after.mics.len() == before.mics.len(),
        forall|i: int|
            0 <= i < before.mics.len() && i != endpoint ==> #[trigger] after.mics[i] == before.mics[i],
        before.mics[endpoint] is None ==> after.mics[endpoint] is None && accepted == 0,
        before.mics[endpoint] matches Some(rx) ==> {
            &&& after.mics[endpoint] matches Some(now)
            &&& polled(rx, datagrams, now, accepted)
            &&& datagrams.len() == 0 ==> now == rx && accepted == 0
        },
{
}

/// One datagram is taken as the receiver of its endpoint takes it.
pub proof fn law_one_datagram_is_received<S: Sample>(
    before: AudioView<S>,
    endpoint: int,
    datagram: Vec<u8>,
    after: AudioView<S>,
    accepted: int,
)
    requires
        datagrams_taken(before, endpoint, seq![datagram], after, accepted),
        0 <= endpoint < before.mics.len(),
        before.mics[endpoint] is Some,
    ensures
        after.mics[endpoint] is Some,
        accepted == 0 || accepted == 1,
        received(before.mics[endpoint]->0, datagram@, after.mics[endpoint]->0, accepted == 1),
{
    let (rx, now) = (before.mics[endpoint]->0, after.mics[endpoint]->0);
    let none = Seq::<Vec<u8>>::empty();
    assert(none.push(datagram) =~= seq![datagram]);
    law_datagrams_are_taken_in_turn(rx, none, datagram, now, accepted);
    let (mid, n, taken) = choose|mid: ReceiverView<S>, n: int, taken: bool| #[trigger]
        polled(rx, none, mid, n) && #[trigger] received(mid, datagram@, now, taken) && accepted == n + if taken {
            1int
        } else {
            0
        };
    law_nothing_received_changes_nothing(rx, mid, n);
}

/// Every stream that has a sender gets a packet, and no other does. It carries the tick's one
/// timestamp, its own sender's payload type, sequence number and source number, and its own
/// samples of the engine's block: each the nearest whole number of 2^-23ths towards zero.
pub proof fn law_packets_carry_their_streams<S: Sample>(
    val: spec_fn(S) -> real,
    before: AudioView<S>,
    engine_out: Seq<S>,
    timestamp: u32,
    packets: Seq<Option<Vec<u8>>>,
    after: AudioView<S>,
    s: int,
    j: int,
)
    requires
        exact(val),
        packets_made(before, engine_out, timestamp, packets, after),
        engine_out.len() == before.keys.len() * before.block,
        0 <= s < before.keys.len(),
        0 <= j < before.block,
    ensures
        packets.len() == before.keys.len(),
        packets[s] is Some <==> before.keys[s] is Some,
        packets[s] matches Some(p) ==> {
            let tx = before.keys[s]->0;
            let n = sample_number(p@, 12 + 3 * j);
            let x = val(engine_out[s * before.block + j]) * (8_388_608 as real);
            &&& p@.len() == 12 + 3 * before.block
            &&& p@[0] == 0x80
            &&& p@[1] == tx.payload_type % 128
            &&& two(p@, 2) == tx.sequence
            &&& four(p@, 4) == timestamp
            &&& four(p@, 8) == tx.ssrc
            &&& x >= 8_388_607 as real ==> n == 8_388_607
            &&& x <= -8_388_608 as real ==> n == -8_388_608
            &&& 0 as real <= x < 8_388_607 as real ==> n as real <= x && x < (n + 1) as real
            &&& -8_388_608 as real <= x <= 0 as real ==> x <= n as real && (n - 1) as real <= x
        },
{
    let row = chunk(engine_out, s, before.block);
    lemma_row_inside(s, before.keys.len() as int, before.block);
    assert(packet_for(before.keys[s], timestamp, row, packets[s]));
    if let Some(p) = packets[s] {
        let tx = before.keys[s]->0;
        let h = next_header(SenderView { timestamp, ..tx });
        law_rtp_header_bytes(h);
        let b = p@;
        let head = b.subrange(0, 12);
        assert(head == h.wire());
        assert(forall|i: int| 0 <= i < 12 ==> b[i] == #[trigger] head[i]);
        let body = b.subrange(12, b.len() as int);
        assert(coded(row, body));
        law_samples_are_coded_in_three_bytes(val, row, body, j);
        assert(body[3 * j] == b[12 + 3 * j]);
        assert(body[3 * j + 1] == b[12 + 3 * j + 1]);
        assert(body[3 * j + 2] == b[12 + 3 * j + 2]);
        assert(row[j] == engine_out[s * before.block + j]);
    }
}

/// Making packets stamps their senders with the tick's timestamp and changes nothing else.
pub proof fn law_packets_stamp_their_senders<S: Sample>(
    before: AudioView<S>,
    engine_out: Seq<S>,
    timestamp: u32,
    packets: Seq<Option<Vec<u8>>>,
    after: AudioView<S>,
    s: int,
)
    requires
        packets_made(before, engine_out, timestamp, packets, after),
        0 <= s < before.keys.len(),
    ensures
        after.block == before.block,
        after.mics == before.mics,
        after.endpoint_ids == before.endpoint_ids,
        after.send_errors == before.send_errors,
        after.keys.len() == before.keys.len(),
        before.keys[s] is None ==> after.keys[s] is None,
        before.keys[s] matches Some(tx) ==> {
            &&& after.keys[s] matches Some(now)
            &&& now.timestamp == timestamp
            &&& now.sequence == tx.sequence
            &&& now.ssrc == tx.ssrc
            &&& now.payload_type == tx.payload_type
            &&& now.block == tx.block
        },
{
}

/// A packet that went out counts its own stream's sequence on by one and its timestamp on by a
/// block, and changes nothing else.
pub proof fn law_a_sent_packet_counts_its_stream<S: Sample>(v: AudioView<S>, stream: int)
    requires
        0 <= stream < v.keys.len(),
    ensures
        stream_sent(v, stream).block == v.block,
        stream_sent(v, stream).mics == v.mics,
        stream_sent(v, stream).endpoint_ids == v.endpoint_ids,
        stream_sent(v, stream).send_errors == v.send_errors,
        stream_sent(v, stream).keys.len() == v.keys.len(),
        forall|s: int|
            0 <= s < v.keys.len() && s != stream ==> #[trigger] stream_sent(v, stream).keys[s] == v.keys[s],
        v.keys[stream] is None ==> stream_sent(v, stream).keys[stream] is None,
        v.keys[stream] matches Some(tx) ==> {
            &&& stream_sent(v, stream).keys[stream] matches Some(now)
            &&& now.sequence == (tx.sequence + 1) % 65536
            &&& now.timestamp == (tx.timestamp + tx.block) % 0x1_0000_0000
            &&& now.ssrc == tx.ssrc
            &&& now.payload_type == tx.payload_type
            &&& now.block == tx.block
        },
{
}

/// Failures are counted, every thousandth is reported, and nothing else changes.
pub proof fn law_every_thousandth_failure_is_reported<S: Sample>(v: AudioView<S>)
    requires
        v.send_errors < u64::MAX,
    ensures
        failure_counted(v).0.send_errors == v.send_errors + 1,
        failure_counted(v).1 <==> (v.send_errors + 1) % 1000 == 0,
        failure_counted(v).0.block == v.block,
        failure_counted(v).0.mics == v.mics,
        failure_counted(v).0.keys == v.keys,
        failure_counted(v).0.endpoint_ids == v.endpoint_ids,
{
}

proof fn lemma_listening<S: Sample>(v: AudioView<S>, n: int)
    requires
        0 <= n <= v.mics.len(),
    ensures
        forall|k: int|
            0 <= k < listening(v.mics, n).len() ==> 0 <= #[trigger] listening(v.mics, n)[k] < n
                && v.mics[listening(v.mics, n)[k]] is Some,
        forall|k: int, l: int|
            0 <= k < l < listening(v.mics, n).len() ==> #[trigger] listening(v.mics, n)[k]
                < #[trigger] listening(v.mics, n)[l],
        forall|i: int| 0 <= i < n && #[trigger] v.mics[i] is Some ==> listening(v.mics, n).contains(i),
    decreases n,
{
    if n > 0 {
        lemma_listening(v, n - 1);
        let before = listening(v.mics, n - 1);
        let now = listening(v.mics, n);
        assert forall|i: int| 0 <= i < n && #[trigger] v.mics[i] is Some implies now.contains(i) by {
            if i == n - 1 {
                assert(now[now.len() - 1] == i);
            } else {
                let k = choose|k: int| 0 <= k < before.len() && before[k] == i;
                assert(now[k] == i);
            }
        }
    }
}

/// The health report has a line for every endpoint with a receiver and for no other, in the
/// order of the endpoints, and each line shows that endpoint's name and counts.
pub proof fn law_health_shows_every_stream<S: Sample>(io: AudioIo<S>, r: Vec<StreamHealth<S>>) -> (at: Seq<int>)
    requires
        call_ensures(AudioIo::<S>::health, (&io,), r),
    ensures
        at.len() == r@.len(),
        forall|k: int, l: int| 0 <= k < l < at.len() ==> #[trigger] at[k] < #[trigger] at[l],
        forall|i: int| 0 <= i < io@.mics.len() && #[trigger] io@.mics[i] is Some ==> at.contains(i),
        forall|k: int|
            0 <= k < at.len() ==> {
                let i = #[trigger] at[k];
                &&& 0 <= i < io@.mics.len()
                &&& io@.mics[i] matches Some(rx)
                &&& r@[k].id@ == io@.endpoint_ids[i]
                &&& r@[k].depth == rx.jitter.stats.depth
                &&& r@[k].lost == rx.jitter.stats.lost
                &&& r@[k].late == rx.jitter.stats.late
                &&& r@[k].resyncs == rx.jitter.stats.resyncs
                &&& r@[k].foreign == rx.foreign
                &&& r@[k].drift is Some <==> rx.jitter.history.len() >= 16
                &&& r@[k].drift matches Some(d) ==> drift_is(rx.jitter, d)
            },
{
    lemma_listening(io@, io@.mics.len() as int);
    listening(io@.mics, io@.mics.len() as int)
}

/// Only a block that was queued is audio; and failed sends are reported as they were counted.
pub proof fn law_only_queued_blocks_are_audio<S: Sample>(pull: Pull, r: bool, io: AudioIo<S>, failed: u64)
    requires
        call_ensures(is_audio, (pull,), r),
        call_ensures(AudioIo::<S>::send_errors, (&io,), failed),
    ensures
        r <==> pull is Filled,
        failed == io@.send_errors,
{
}

} // verus!
