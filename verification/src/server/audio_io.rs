//! AES67 in and out: one receiver per endpoint microphone, one sender per key stream.
//!
//! Endpoints on the Opus leg get neither. They contribute silence and receive nothing: a
//! phone on a multicast group would not work.

use vstd::prelude::*;

use crate::config::model::{Config, ConfigView};
use crate::engine::kernels::silence_row;
use crate::engine::mixer::{routes_of, Engine};
use crate::engine::plan::{silent, StreamRoute};
use crate::engine::rows::{chunk, lemma_with_chunk, row, row_mut, with_chunk};
use crate::ptp::servo::counted;
use crate::rtp::addressing::{
    key_group, key_number, key_source, key_ssrc, mic_group, offset_address, Ipv4Addr, KEY_BASE, MIC_BASE,
};
use crate::rtp::jitter::{drift_is, jitter_fits, jitter_fresh, pulled, Pull, LEAST_HISTORY};
use crate::rtp::packet::packet_is;
use crate::rtp::transport::{
    next_header, packet_fits, polled, sent, ReceiverView, SenderView, StreamReceiver, StreamSender,
};
use crate::sample::Sample;

verus! {

/// Multicast TTL. 32 keeps streams inside the site and off any uplink.
pub const TTL: u32 = 32;

/// The dynamic payload type that every key stream carries.
pub const PAYLOAD_TYPE: u8 = 96;

/// One failed send in this many is worth a line in the log.
pub const FAILURES_PER_REPORT: u64 = 1000;

/// Health of one endpoint's inbound stream.
#[derive(Debug)]
pub struct StreamHealth<S> {
    pub id: String,
    /// Packets buffered ahead of the playout point.
    pub depth: usize,
    pub lost: u64,
    pub late: u64,
    pub resyncs: u64,
    /// Mean depth beyond the target. Persistently non-zero means that the sender is not
    /// locked to our clock.
    pub drift: Option<S>,
    /// Packets dropped for carrying another SSRC.
    pub foreign: u64,
}

/// Which multicast group each endpoint's microphone arrives on, where it does.
pub open spec fn mic_groups_are(c: ConfigView, groups: Seq<Option<Ipv4Addr>>) -> bool {
    &&& groups.len() == c.endpoints.len()
    &&& forall|i: int| 0 <= i < groups.len() ==> mic_group_is(c, i, #[trigger] groups[i])
}

pub open spec fn mic_group_is(c: ConfigView, i: int, group: Option<Ipv4Addr>) -> bool {
    if c.endpoints[i].kind.takes_aes67() {
        group matches Some(g) && g.bits == offset_address(MIC_BASE as int, i)
    } else {
        group is None
    }
}

/// Which multicast group each stream leaves on, where it does.
pub open spec fn key_groups_are(c: ConfigView, routes: Seq<StreamRoute>, groups: Seq<Option<Ipv4Addr>>) -> bool {
    &&& groups.len() == routes.len()
    &&& forall|s: int| 0 <= s < groups.len() ==> key_group_is(c, routes[s], #[trigger] groups[s])
}

pub open spec fn key_group_is(c: ConfigView, r: StreamRoute, group: Option<Ipv4Addr>) -> bool {
    if c.endpoints[r.endpoint as int].kind.takes_aes67() {
        group matches Some(g) && g.bits == offset_address(
            KEY_BASE as int,
            key_number(r.endpoint as int, r.slot as int),
        )
    } else {
        group is None
    }
}

/// Whether every stream belongs to an endpoint, and its number can be counted.
pub open spec fn routable(c: ConfigView, routes: Seq<StreamRoute>) -> bool {
    &&& forall|s: int|
        0 <= s < routes.len() ==> (#[trigger] routes[s]).endpoint < c.endpoints.len() && key_number(
            routes[s].endpoint as int,
            routes[s].slot as int,
        ) <= usize::MAX
}

/// The group of each endpoint's microphone.
///
/// For an external device this is only right where it publishes on the group that we would
/// have allocated.
pub fn mic_groups(config: &Config) -> (r: Vec<Option<Ipv4Addr>>)
    ensures
        mic_groups_are(config@, r@),
{
    let mut out: Vec<Option<Ipv4Addr>> = Vec::new();
    let mut i: usize = 0;
    while i < config.endpoints.len()
        invariant
            i <= config.endpoints@.len(),
            out@.len() == i,
            forall|j: int| 0 <= j < i ==> mic_group_is(config@, j, #[trigger] out@[j]),
        decreases config.endpoints@.len() - i,
    {
        if config.endpoints[i].kind.uses_aes67() {
            out.push(Some(mic_group(i)));
        } else {
            out.push(None);
        }
        i += 1;
    }
    out
}

/// The group of each key stream.
pub fn key_groups(config: &Config, routes: &[StreamRoute]) -> (r: Vec<Option<Ipv4Addr>>)
    requires
        routable(config@, routes@),
    ensures
        key_groups_are(config@, routes@, r@),
{
    let mut out: Vec<Option<Ipv4Addr>> = Vec::new();
    let mut s: usize = 0;
    while s < routes.len()
        invariant
            s <= routes@.len(),
            routable(config@, routes@),
            out@.len() == s,
            forall|j: int| 0 <= j < s ==> key_group_is(config@, routes@[j], #[trigger] out@[j]),
        decreases routes@.len() - s,
    {
        let r = routes[s];
        assert(routes@[s as int] == r);
        if config.endpoints[r.endpoint].kind.uses_aes67() {
            out.push(Some(key_group(r.endpoint, r.slot)));
        } else {
            out.push(None);
        }
        s += 1;
    }
    out
}

/// Every stream in and out of the server.
pub struct AudioIo<S> {
    block: usize,
    mics: Vec<Option<StreamReceiver<S>>>,
    keys: Vec<Option<StreamSender>>,
    endpoint_ids: Vec<String>,
    send_errors: u64,
}

/// The streams as a mathematical value.
#[verifier::ext_equal]
pub struct AudioView<S> {
    pub block: int,
    /// By endpoint. `None` for endpoints on the Opus leg.
    pub mics: Seq<Option<ReceiverView<S>>>,
    /// By engine stream. `None` for streams of endpoints on the Opus leg.
    pub keys: Seq<Option<SenderView>>,
    pub endpoint_ids: Seq<Seq<char>>,
    pub send_errors: u64,
}

pub open spec fn mics_view<S: Sample>(mics: Seq<Option<StreamReceiver<S>>>) -> Seq<Option<ReceiverView<S>>> {
    Seq::new(
        mics.len(),
        |i: int| match mics[i] {
            Some(rx) => Some(rx@),
            None => None,
        },
    )
}

pub open spec fn senders_view(keys: Seq<Option<StreamSender>>) -> Seq<Option<SenderView>> {
    Seq::new(
        keys.len(),
        |i: int| match keys[i] {
            Some(tx) => Some(tx@),
            None => None,
        },
    )
}

impl<S: Sample> View for AudioIo<S> {
    type V = AudioView<S>;

    closed spec fn view(&self) -> AudioView<S> {
        AudioView {
            block: self.block as int,
            mics: mics_view(self.mics@),
            keys: senders_view(self.keys@),
            endpoint_ids: Seq::new(self.endpoint_ids@.len(), |i: int| self.endpoint_ids@[i]@),
            send_errors: self.send_errors,
        }
    }
}

/// A receiver for every AES67 endpoint, fresh.
pub open spec fn mic_fresh<S: Sample>(c: ConfigView, i: int, block: int, depth: int, mic: Option<ReceiverView<S>>) -> bool {
    if c.endpoints[i].kind.takes_aes67() {
        mic matches Some(rx) && jitter_fresh(rx.jitter, block, depth) && rx.ssrc is None && rx.foreign == 0
    } else {
        mic is None
    }
}

/// A sender for every stream of an AES67 endpoint, with the SSRC of its key.
pub open spec fn key_fresh(c: ConfigView, r: StreamRoute, block: int, key: Option<SenderView>) -> bool {
    if c.endpoints[r.endpoint as int].kind.takes_aes67() {
        key matches Some(tx) && tx.payload_type == PAYLOAD_TYPE && tx.block == block && tx.ssrc == key_source(
            r.endpoint as int,
            r.slot as int,
        ) && tx.sequence == tx.ssrc % 0x1_0000 && tx.timestamp == tx.ssrc
    } else {
        key is None
    }
}

pub open spec fn bound_for<S: Sample>(
    c: ConfigView,
    routes: Seq<StreamRoute>,
    block: int,
    depth: int,
    v: AudioView<S>,
) -> bool {
    &&& v.block == block
    &&& v.mics.len() == c.endpoints.len()
    &&& forall|i: int| 0 <= i < v.mics.len() ==> mic_fresh(c, i, block, depth, #[trigger] v.mics[i])
    &&& v.keys.len() == routes.len()
    &&& forall|s: int| 0 <= s < v.keys.len() ==> key_fresh(c, routes[s], block, #[trigger] v.keys[s])
    &&& v.endpoint_ids.len() == c.endpoints.len()
    &&& forall|i: int| 0 <= i < v.endpoint_ids.len() ==> #[trigger] v.endpoint_ids[i] == c.endpoints[i].id
    &&& v.send_errors == 0
}

/// One endpoint's block, pulled or silent.
pub open spec fn input_pulled<S: Sample>(
    before: Option<ReceiverView<S>>,
    row: Seq<S>,
    after: Option<ReceiverView<S>>,
) -> bool {
    match before {
        Some(rx) => {
            &&& after matches Some(now)
            &&& now.ssrc == rx.ssrc
            &&& now.foreign == rx.foreign
            &&& exists|r: Pull| #[trigger] pulled(rx.jitter, row, r, now.jitter)
        },
        None => after is None && silent(row),
    }
}

/// One block for every endpoint.
pub open spec fn inputs_pulled<S: Sample>(before: AudioView<S>, out: Seq<S>, after: AudioView<S>) -> bool {
    &&& after.mics.len() == before.mics.len()
    &&& out.len() == before.mics.len() * before.block
    &&& forall|i: int|
        0 <= i < before.mics.len() ==> input_pulled(
            before.mics[i],
            chunk(out, i, before.block),
            #[trigger] after.mics[i],
        )
    &&& after == (AudioView { mics: after.mics, ..before })
}

/// A stream's sender after it was stamped.
pub open spec fn stamped(key: Option<SenderView>, timestamp: u32) -> Option<SenderView> {
    match key {
        Some(tx) => Some(SenderView { timestamp, ..tx }),
        None => None,
    }
}

/// A stream's packet, where it has a sender.
pub open spec fn packet_for<S: Sample>(
    key: Option<SenderView>,
    timestamp: u32,
    row: Seq<S>,
    packet: Option<Vec<u8>>,
) -> bool {
    match key {
        Some(tx) => packet matches Some(p) && packet_is(
            next_header(SenderView { timestamp, ..tx }),
            row,
            p@,
        ),
        None => packet is None,
    }
}

/// What an endpoint's datagrams do to its receiver, where it has one.
pub open spec fn datagrams_taken<S: Sample>(
    v: AudioView<S>,
    endpoint: int,
    datagrams: Seq<Vec<u8>>,
    after: AudioView<S>,
    accepted: int,
) -> bool {
    &&& after == (AudioView { mics: v.mics.update(endpoint, after.mics[endpoint]), ..v })
    &&& match v.mics[endpoint] {
        Some(rx) => after.mics[endpoint] matches Some(now) && polled(rx, datagrams, now, accepted),
        None => accepted == 0 && after.mics[endpoint] is None,
    }
}

/// A packet for every stream that has a sender, all with one timestamp.
pub open spec fn packets_made<S: Sample>(
    v: AudioView<S>,
    engine_out: Seq<S>,
    timestamp: u32,
    packets: Seq<Option<Vec<u8>>>,
    after: AudioView<S>,
) -> bool {
    &&& packets.len() == v.keys.len()
    &&& forall|s: int|
        0 <= s < packets.len() ==> packet_for(
            v.keys[s],
            timestamp,
            chunk(engine_out, s, v.block),
            #[trigger] packets[s],
        )
    &&& after == (AudioView { keys: after.keys, ..v })
    &&& after.keys.len() == v.keys.len()
    &&& forall|s: int| 0 <= s < v.keys.len() ==> #[trigger] after.keys[s] == stamped(v.keys[s], timestamp)
}

/// The streams once the packet of one has gone out.
pub open spec fn stream_sent<S: Sample>(v: AudioView<S>, stream: int) -> AudioView<S> {
    AudioView {
        keys: v.keys.update(
            stream,
            match v.keys[stream] {
                Some(tx) => Some(sent(tx)),
                None => None,
            },
        ),
        ..v
    }
}

/// One more failed send, and whether to report it.
pub open spec fn failure_counted<S: Sample>(v: AudioView<S>) -> (AudioView<S>, bool) {
    let errors = counted(v.send_errors);
    (AudioView { send_errors: errors, ..v }, errors % FAILURES_PER_REPORT == 0)
}

/// The positions below `n` that have a receiver.
pub open spec fn listening<S>(mics: Seq<Option<ReceiverView<S>>>, n: int) -> Seq<int>
    decreases n,
{
    if n <= 0 {
        Seq::empty()
    } else if mics[n - 1] is Some {
        listening(mics, n - 1).push(n - 1)
    } else {
        listening(mics, n - 1)
    }
}

/// What is reported of one endpoint's stream.
pub open spec fn health_is<S: Sample>(v: AudioView<S>, i: int, h: StreamHealth<S>) -> bool {
    let rx = v.mics[i]->0;
    &&& h.id@ == v.endpoint_ids[i]
    &&& h.depth == rx.jitter.stats.depth
    &&& h.lost == rx.jitter.stats.lost
    &&& h.late == rx.jitter.stats.late
    &&& h.resyncs == rx.jitter.stats.resyncs
    &&& h.foreign == rx.foreign
    &&& match h.drift {
        Some(d) => rx.jitter.history.len() >= LEAST_HISTORY && drift_is(rx.jitter, d),
        None => rx.jitter.history.len() < LEAST_HISTORY,
    }
}

impl<S: Sample> AudioIo<S> {
    pub closed spec fn wf(&self) -> bool {
        &&& self.endpoint_ids@.len() == self.mics@.len()
        &&& packet_fits(self.block as int)
        &&& forall|i: int|
            0 <= i < self.mics@.len() ==> (#[trigger] self.mics@[i] matches Some(rx) ==> rx.wf() && rx@.jitter.block
                == self.block)
        &&& forall|s: int|
            0 <= s < self.keys@.len() ==> (#[trigger] self.keys@[s] matches Some(tx) ==> tx.wf() && tx@.block
                == self.block)
    }

    /// Every stream that a configuration implies.
    pub fn new(config: &Config, engine: &Engine<S>, target_depth: usize) -> (r: Self)
        requires
            engine.wf(),
            routable(config@, routes_of(engine@.keys)),
            jitter_fits(engine@.block, target_depth as int),
            packet_fits(engine@.block),
        ensures
            r.wf(),
            bound_for(config@, routes_of(engine@.keys), engine@.block, target_depth as int, r@),
    {
        let block: usize = engine.block_size();
        let mut mics: Vec<Option<StreamReceiver<S>>> = Vec::new();
        let mut endpoint_ids: Vec<String> = Vec::new();
        let mut i: usize = 0;
        while i < config.endpoints.len()
            invariant
                i <= config.endpoints@.len(),
                mics@.len() == i,
                endpoint_ids@.len() == i,
                jitter_fits(block as int, target_depth as int),
                forall|j: int|
                    0 <= j < i ==> (#[trigger] mics@[j] matches Some(rx) ==> rx.wf() && rx@.jitter.block == block),
                forall|j: int|
                    0 <= j < i ==> mic_fresh(
                        config@,
                        j,
                        block as int,
                        target_depth as int,
                        #[trigger] mics_view(mics@)[j],
                    ),
                forall|j: int| 0 <= j < i ==> #[trigger] endpoint_ids@[j]@ == config@.endpoints[j].id,
            decreases config.endpoints@.len() - i,
        {
            let ghost before = mics@;
            if config.endpoints[i].kind.uses_aes67() {
                mics.push(Some(StreamReceiver::new(block, target_depth)));
            } else {
                mics.push(None);
            }
            proof {
                assert forall|j: int| 0 <= j < i + 1 implies mic_fresh(
                    config@,
                    j,
                    block as int,
                    target_depth as int,
                    #[trigger] mics_view(mics@)[j],
                ) by {
                    if j < i {
                        assert(mics_view(before)[j] == mics_view(mics@)[j]);
                    }
                }
                assert forall|j: int| 0 <= j < i + 1 implies (#[trigger] mics@[j] matches Some(rx) ==> rx.wf()
                    && rx@.jitter.block == block) by {
                    if j < i {
                        assert(before[j] == mics@[j]);
                    }
                }
            }
            endpoint_ids.push(config.endpoints[i].id.0.clone());
            i += 1;
        }
        let routes = engine.routes();
        let mut keys: Vec<Option<StreamSender>> = Vec::new();
        let mut s: usize = 0;
        while s < routes.len()
            invariant
                s <= routes@.len(),
                keys@.len() == s,
                routable(config@, routes@),
                packet_fits(block as int),
                forall|j: int|
                    0 <= j < s ==> (#[trigger] keys@[j] matches Some(tx) ==> tx.wf() && tx@.block == block),
                forall|j: int|
                    0 <= j < s ==> key_fresh(config@, routes@[j], block as int, #[trigger] senders_view(keys@)[j]),
            decreases routes@.len() - s,
        {
            let r = routes[s];
            assert(routes@[s as int] == r);
            let ghost before = keys@;
            if config.endpoints[r.endpoint].kind.uses_aes67() {
                keys.push(Some(StreamSender::new(block, PAYLOAD_TYPE, key_ssrc(r.endpoint, r.slot))));
            } else {
                keys.push(None);
            }
            proof {
                assert forall|j: int| 0 <= j < s + 1 implies key_fresh(
                    config@,
                    routes@[j],
                    block as int,
                    #[trigger] senders_view(keys@)[j],
                ) by {
                    if j < s {
                        assert(senders_view(before)[j] == senders_view(keys@)[j]);
                    }
                }
                assert forall|j: int| 0 <= j < s + 1 implies (#[trigger] keys@[j] matches Some(tx) ==> tx.wf()
                    && tx@.block == block) by {
                    if j < s {
                        assert(before[j] == keys@[j]);
                    }
                }
            }
            s += 1;
        }
        AudioIo { block, mics, keys, endpoint_ids, send_errors: 0 }
    }

    /// Hands an endpoint's receiver what was waiting on its socket. Returns how many
    /// packets were accepted.
    pub fn receive(&mut self, endpoint: usize, datagrams: &Vec<Vec<u8>>) -> (accepted: usize)
        requires
            old(self).wf(),
            endpoint < old(self)@.mics.len(),
        ensures
            final(self).wf(),
            datagrams_taken(old(self)@, endpoint as int, datagrams@, final(self)@, accepted as int),
    {
        let ghost v = self@;
        let ghost before = self.mics@;
        let accepted: usize = match &mut self.mics[endpoint] {
            Some(rx) => rx.poll(datagrams),
            None => 0,
        };
        proof {
            let i = endpoint as int;
            assert(self@.mics =~= v.mics.update(i, self@.mics[i]));
            assert forall|j: int| 0 <= j < self.mics@.len() implies (#[trigger] self.mics@[j] matches Some(rx)
                ==> rx.wf() && rx@.jitter.block == self.block) by {
                if j != i {
                    assert(before[j] == self.mics@[j]);
                }
            }
        }
        accepted
    }

    /// Fill the engine's input buffer, one row per endpoint.
    ///
    /// Every endpoint gets exactly one block whether or not a packet arrived: that is what
    /// puts them all on the same timeline.
    pub fn pull_inputs(&mut self, out: &mut Vec<S>)
        requires
            old(self).wf(),
            old(out)@.len() == old(self)@.mics.len() * old(self)@.block,
        ensures
            final(self).wf(),
            inputs_pulled(old(self)@, final(out)@, final(self)@),
    {
        let ghost v = self@;
        let ghost n = self.mics@.len() as int;
        let block: usize = self.block;
        let mut i: usize = 0;
        while i < self.mics.len()
            invariant
                self.wf(),
                block == self.block,
                n == self.mics@.len(),
                n == v.mics.len(),
                v.block == block,
                i <= n,
                out@.len() == n * block,
                self@.keys == v.keys,
                self@.endpoint_ids == v.endpoint_ids,
                self@.send_errors == v.send_errors,
                self@.mics.len() == n,
                forall|j: int|
                    0 <= j < i ==> input_pulled(v.mics[j], chunk(out@, j, block as int), #[trigger] self@.mics[j]),
                forall|j: int| i <= j < n ==> #[trigger] self@.mics[j] == v.mics[j],
            decreases n - i,
        {
            let ghost rows = out@;
            let ghost was = self@;
            let ghost before = self.mics@;
            let slice = row_mut(out, i, block, Ghost(n));
            match &mut self.mics[i] {
                Some(rx) => {
                    let _ = rx.pull(slice);
                },
                None => {
                    silence_row(slice);
                },
            }
            let ghost now = slice@;
            proof {
                let at = i as int;
                assert(out@ == with_chunk(rows, at, block as int, now));
                lemma_with_chunk(rows, n, block as int, at, now);
                assert forall|j: int| 0 <= j < n && j != at implies #[trigger] self@.mics[j] == was.mics[j] by {
                    assert(self.mics@[j] == before[j]);
                }
                assert forall|j: int| 0 <= j < self.mics@.len() implies (#[trigger] self.mics@[j] matches Some(rx)
                    ==> rx.wf() && rx@.jitter.block == self.block) by {
                    if j != at {
                        assert(before[j] == self.mics@[j]);
                    }
                }
                assert(was.mics[at] == v.mics[at]);
                assert(chunk(out@, at, block as int) == now);
                assert(input_pulled(v.mics[at], now, self@.mics[at]));
                assert forall|j: int| 0 <= j < i + 1 implies input_pulled(
                    v.mics[j],
                    chunk(out@, j, block as int),
                    #[trigger] self@.mics[j],
                ) by {
                    if j < at {
                        assert(self@.mics[j] == was.mics[j]);
                        assert(chunk(out@, j, block as int) == chunk(rows, j, block as int));
                    }
                }
            }
            i += 1;
        }
    }

    /// One packet of every key stream, all carrying the same RTP timestamp.
    ///
    /// These blocks are the same instant, and receivers use the timestamp to align streams
    /// from one sender.
    pub fn packets_at(&mut self, engine_out: &[S], timestamp: u32) -> (packets: Vec<Option<Vec<u8>>>)
        requires
            old(self).wf(),
            engine_out@.len() == old(self)@.keys.len() * old(self)@.block,
        ensures
            final(self).wf(),
            packets_made(old(self)@, engine_out@, timestamp, packets@, final(self)@),
    {
        let ghost v = self@;
        let ghost n = self.keys@.len() as int;
        let block: usize = self.block;
        let mut packets: Vec<Option<Vec<u8>>> = Vec::new();
        let mut s: usize = 0;
        while s < self.keys.len()
            invariant
                self.wf(),
                block == self.block,
                n == self.keys@.len(),
                n == v.keys.len(),
                v.block == block,
                s <= n,
                packets@.len() == s,
                engine_out@.len() == n * block,
                self@ == (AudioView { keys: self@.keys, ..v }),
                self@.keys.len() == n,
                forall|j: int|
                    0 <= j < s ==> packet_for(
                        v.keys[j],
                        timestamp,
                        chunk(engine_out@, j, block as int),
                        #[trigger] packets@[j],
                    ),
                forall|j: int| 0 <= j < s ==> #[trigger] self@.keys[j] == stamped(v.keys[j], timestamp),
                forall|j: int| s <= j < n ==> #[trigger] self@.keys[j] == v.keys[j],
            decreases n - s,
        {
            let ghost was = self@;
            let ghost before = self.keys@;
            let ghost made = packets@;
            let slice = row(engine_out, s, block, Ghost(n));
            let packet = match &mut self.keys[s] {
                Some(tx) => {
                    tx.stamp(timestamp);
                    Some(tx.packet(slice))
                },
                None => None,
            };
            packets.push(packet);
            proof {
                let at = s as int;
                assert(was.keys[at] == v.keys[at]);
                assert forall|j: int| 0 <= j < n && j != at implies #[trigger] self@.keys[j] == was.keys[j] by {
                    assert(self.keys@[j] == before[j]);
                }
                assert forall|j: int| 0 <= j < self.keys@.len() implies (#[trigger] self.keys@[j] matches Some(tx)
                    ==> tx.wf() && tx@.block == self.block) by {
                    if j != at {
                        assert(before[j] == self.keys@[j]);
                    }
                }
                assert(self@.keys[at] == stamped(v.keys[at], timestamp));
                assert forall|j: int| 0 <= j < s + 1 implies packet_for(
                    v.keys[j],
                    timestamp,
                    chunk(engine_out@, j, block as int),
                    #[trigger] packets@[j],
                ) by {
                    if j < at {
                        assert(packets@[j] == made[j]);
                    }
                }
            }
            s += 1;
        }
        packets
    }

    /// To be called for each packet that went out.
    pub fn sent(&mut self, stream: usize)
        requires
            old(self).wf(),
            stream < old(self)@.keys.len(),
        ensures
            final(self).wf(),
            final(self)@ == stream_sent(old(self)@, stream as int),
    {
        let ghost v = self@;
        let ghost before = self.keys@;
        match &mut self.keys[stream] {
            Some(tx) => {
                tx.advance();
            },
            None => {},
        }
        proof {
            let i = stream as int;
            assert(self@.keys =~= v.keys.update(
                i,
                match v.keys[i] {
                    Some(tx) => Some(sent(tx)),
                    None => None,
                },
            ));
            assert forall|j: int| 0 <= j < self.keys@.len() implies (#[trigger] self.keys@[j] matches Some(tx)
                ==> tx.wf() && tx@.block == self.block) by {
                if j != i {
                    assert(before[j] == self.keys@[j]);
                }
            }
        }
    }

    /// To be called for each packet that did not. Returns whether this failure is one to
    /// report: a line per failure would itself become the problem.
    pub fn send_failed(&mut self) -> (report: bool)
        requires
            old(self).wf(),
        ensures
            final(self).wf(),
            (final(self)@, report) == failure_counted(old(self)@),
    {
        self.send_errors = self.send_errors.wrapping_add(1);
        self.send_errors % FAILURES_PER_REPORT == 0
    }

    pub fn send_errors(&self) -> (r: u64)
        ensures
            r == self@.send_errors,
    {
        self.send_errors
    }

    /// The health of every inbound stream, in the order of endpoints.
    pub fn health(&self) -> (r: Vec<StreamHealth<S>>)
        requires
            self.wf(),
        ensures
            r@.len() == listening(self@.mics, self@.mics.len() as int).len(),
            forall|k: int|
                0 <= k < r@.len() ==> health_is(
                    self@,
                    listening(self@.mics, self@.mics.len() as int)[k],
                    #[trigger] r@[k],
                ),
    {
        let ghost v = self@;
        let mut out: Vec<StreamHealth<S>> = Vec::new();
        let mut i: usize = 0;
        while i < self.mics.len()
            invariant
                self.wf(),
                v == self@,
                i <= self.mics@.len(),
                out@.len() == listening(v.mics, i as int).len(),
                forall|k: int|
                    0 <= k < out@.len() ==> health_is(v, listening(v.mics, i as int)[k], #[trigger] out@[k]),
            decreases self.mics@.len() - i,
        {
            let ghost before = out@;
            assert(v.mics[i as int] == mics_view(self.mics@)[i as int]);
            if let Some(rx) = &self.mics[i] {
                assert(self.mics@[i as int] is Some);
                let jitter = rx.jitter();
                let stats = jitter.stats();
                let h = StreamHealth {
                    id: self.endpoint_ids[i].clone(),
                    depth: stats.depth,
                    lost: stats.lost,
                    late: stats.late,
                    resyncs: stats.resyncs,
                    drift: jitter.drift(),
                    foreign: rx.foreign_packets(),
                };
                assert(health_is(v, i as int, h));
                out.push(h);
                proof {
                    assert forall|k: int| 0 <= k < out@.len() implies health_is(
                        v,
                        listening(v.mics, i + 1)[k],
                        #[trigger] out@[k],
                    ) by {
                        if k < before.len() {
                            assert(out@[k] == before[k]);
                            assert(health_is(v, listening(v.mics, i as int)[k], before[k]));
                        }
                    }
                }
            }
            i += 1;
        }
        out
    }
}

/// Whether a pull produced real audio, for metering purposes.
pub fn is_audio(pull: Pull) -> (r: bool)
    ensures
        r == (pull == Pull::Filled),
{
    matches!(pull, Pull::Filled)
}

/// Every stream of one tick carries the tick's timestamp, so that receivers can line the
/// streams up.
pub proof fn law_streams_share_the_timestamp(
    a: Option<SenderView>,
    b: Option<SenderView>,
    timestamp: u32,
)
    requires
        a is Some,
        b is Some,
    ensures
        next_header(stamped(a, timestamp)->0).timestamp == timestamp,
        next_header(stamped(a, timestamp)->0).timestamp == next_header(stamped(b, timestamp)->0).timestamp,
{
}

} // verus!
