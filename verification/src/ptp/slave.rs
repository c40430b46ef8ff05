//! The slave side of the protocol: matching messages into measurements.

use std::collections::BTreeMap;

use vstd::prelude::*;

use crate::ptp::bmca::{
    best_known, interval_nanos, observed, senders_distinct, BestMaster, Candidate, MasterDataset,
    RECEIPT_TIMEOUT_MULTIPLIER, alive,
};
use crate::ptp::message::{Announce, Body, Header, Message, MessageType, PortIdentity, Timestamp};
use crate::ptp::pending::{
    forget_earlier, later_than, wait_for, waiting_after, MAX_PENDING_SYNCS,
};
use crate::ptp::servo::{
    counted, half, inbound, measure, outbound, servo_fresh, updated, DelaySample, LockState, Measurement,
    Servo, ServoView, SyncSample,
};
use crate::ptp::message::saturated;
use crate::sample::Sample;

verus! {

broadcast use {vstd::std_specs::btree::group_btree_axioms, vstd::laws_cmp::group_laws_cmp};

/// Something the caller needs to act on.
#[derive(Clone, Copy, Debug, PartialEq, Eq, Structural)]
pub enum Event {
    /// The grandmaster changed. The caller should expect a step.
    MasterChanged,
    /// A complete measurement landed and the servo moved.
    Measured(LockState),
}

#[derive(Clone, Copy, Debug, PartialEq, Eq, Structural)]
pub struct SlaveStats {
    pub announces: u64,
    pub syncs: u64,
    pub follow_ups: u64,
    pub delay_resps: u64,
    /// Messages from a domain we are not on.
    pub wrong_domain: u64,
    /// Sync or Delay_Resp that arrived without a partner to match.
    pub unmatched: u64,
}

impl Default for SlaveStats {
    fn default() -> (r: Self)
        ensures
            r == no_stats(),
    {
        SlaveStats { announces: 0, syncs: 0, follow_ups: 0, delay_resps: 0, wrong_domain: 0, unmatched: 0 }
    }
}

pub open spec fn no_stats() -> SlaveStats {
    SlaveStats { announces: 0, syncs: 0, follow_ups: 0, delay_resps: 0, wrong_domain: 0, unmatched: 0 }
}

/// The slave side of one PTP port.
pub struct SlaveState<S> {
    identity: PortIdentity,
    domain: u8,
    bmca: BestMaster,
    servo: Servo<S>,
    master: Option<MasterDataset>,
    pending_sync: BTreeMap<u16, Timestamp>,
    last_sync: Option<SyncSample>,
    pending_delay: Option<(u16, Timestamp)>,
    last_measurement: Option<Measurement>,
    stats: SlaveStats,
}

/// The slave as a mathematical value.
pub struct SlaveView<S> {
    pub identity: PortIdentity,
    pub domain: u8,
    pub masters: Seq<Candidate>,
    pub servo: ServoView<S>,
    pub master: Option<MasterDataset>,
    /// Receive times of Syncs still waiting for their Follow_Ups, by sequence id.
    pub pending_sync: Map<u16, Timestamp>,
    /// The most recent completed Sync pairing.
    pub last_sync: Option<SyncSample>,
    /// Sequence and local transmit time of the Delay_Req in flight.
    pub pending_delay: Option<(u16, Timestamp)>,
    pub last_measurement: Option<Measurement>,
    pub stats: SlaveStats,
}

impl<S: Sample> View for SlaveState<S> {
    type V = SlaveView<S>;

    closed spec fn view(&self) -> SlaveView<S> {
        SlaveView {
            identity: self.identity,
            domain: self.domain,
            masters: self.bmca@,
            servo: self.servo@,
            master: self.master,
            pending_sync: self.pending_sync@,
            last_sync: self.last_sync,
            pending_delay: self.pending_delay,
            last_measurement: self.last_measurement,
            stats: self.stats,
        }
    }
}

impl<S> SlaveView<S> {
    /// Each master is tracked once, the servo is sound, and few Syncs wait.
    pub open spec fn well_formed(self) -> bool {
        &&& senders_distinct(self.masters)
        &&& self.servo.well_formed()
        &&& self.pending_sync.dom().finite()
        &&& self.pending_sync.len() <= MAX_PENDING_SYNCS
    }

    /// Whether a message comes from the master we follow.
    pub open spec fn follows(self, source: PortIdentity) -> bool {
        match self.master {
            Some(m) => m.sender == source,
            None => false,
        }
    }
}

/// The master to follow among those known.
pub open spec fn elected(masters: Seq<Candidate>) -> Option<MasterDataset> {
    if masters.len() == 0 {
        None
    } else {
        Some(best_known(masters))
    }
}

/// Whether following `b` instead of `a` is a change of master.
pub open spec fn master_changes(a: Option<MasterDataset>, b: Option<MasterDataset>) -> bool {
    match (a, b) {
        (Some(x), Some(y)) => x.grandmaster != y.grandmaster || x.sender != y.sender,
        (None, None) => false,
        _ => true,
    }
}

/// Selection run again. On a change everything in flight belonged to the old master's
/// timeline and is dropped.
pub open spec fn reselected<S>(v: SlaveView<S>) -> SlaveView<S> {
    let best = elected(v.masters);
    if master_changes(v.master, best) {
        SlaveView {
            master: best,
            pending_sync: Map::empty(),
            last_sync: None,
            pending_delay: None,
            ..v
        }
    } else {
        SlaveView { master: best, ..v }
    }
}

pub open spec fn reselection_event<S>(v: SlaveView<S>) -> Option<Event> {
    if master_changes(v.master, elected(v.masters)) {
        Some(Event::MasterChanged)
    } else {
        None
    }
}

/// An Announce recorded.
pub open spec fn announce_recorded<S>(v: SlaveView<S>, h: Header, a: Announce, now: u64) -> SlaveView<S> {
    SlaveView {
        masters: observed(
            v.masters,
            Candidate {
                dataset: MasterDataset {
                    grandmaster: a.grandmaster_identity,
                    priority1: a.grandmaster_priority1,
                    quality: a.grandmaster_quality,
                    priority2: a.grandmaster_priority2,
                    steps_removed: a.steps_removed,
                    sender: h.source,
                },
                last_seen: now,
                timeout: (interval_nanos(h.log_message_interval as int) * RECEIPT_TIMEOUT_MULTIPLIER) as u64,
            },
        ),
        stats: SlaveStats { announces: counted(v.stats.announces), ..v.stats },
        ..v
    }
}

/// A Sync from our master: a two-step one waits for its Follow_Up, a one-step one is
/// complete in itself.
pub open spec fn sync_taken<S>(v: SlaveView<S>, h: Header, origin: Timestamp, rx: Timestamp) -> SlaveView<S> {
    let stats = SlaveStats { syncs: counted(v.stats.syncs), ..v.stats };
    if h.flags.two_step {
        let lost = v.pending_sync.insert(h.sequence_id, rx).len() > MAX_PENDING_SYNCS;
        SlaveView {
            pending_sync: waiting_after(v.pending_sync, h.sequence_id, rx),
            stats: if lost {
                SlaveStats { unmatched: counted(stats.unmatched), ..stats }
            } else {
                stats
            },
            ..v
        }
    } else {
        SlaveView {
            last_sync: Some(SyncSample { t1: origin, t2: rx, correction_nanos: h.correction() as i64 }),
            pending_sync: Map::empty(),
            stats,
            ..v
        }
    }
}

/// A Follow_Up from our master, matched by sequence id and not by arrival.
pub open spec fn follow_up_taken<S>(v: SlaveView<S>, h: Header, origin: Timestamp) -> SlaveView<S> {
    let stats = SlaveStats { follow_ups: counted(v.stats.follow_ups), ..v.stats };
    if v.pending_sync.contains_key(h.sequence_id) {
        SlaveView {
            last_sync: Some(
                SyncSample {
                    t1: origin,
                    t2: v.pending_sync[h.sequence_id],
                    correction_nanos: h.correction() as i64,
                },
            ),
            pending_sync: later_than(v.pending_sync.remove(h.sequence_id), h.sequence_id),
            stats,
            ..v
        }
    } else {
        SlaveView { stats: SlaveStats { unmatched: counted(stats.unmatched), ..stats }, ..v }
    }
}

/// The measurement that a completed exchange gives.
pub open spec fn measured(sync: SyncSample, delay: DelaySample) -> Measurement {
    Measurement {
        offset_nanos: saturated(outbound(sync) - half(outbound(sync) + inbound(delay))) as i64,
        delay_nanos: saturated(half(outbound(sync) + inbound(delay))) as i64,
    }
}

/// A Delay_Resp to us from our master. It completes a measurement if it answers the
/// Delay_Req in flight and a Sync pairing is there to combine it with, and if the times of
/// each way are near enough to be told apart: otherwise one of them is nonsense, and nothing
/// is measured.
pub open spec fn delay_resp_taken<S: Sample>(
    v: SlaveView<S>,
    h: Header,
    receive: Timestamp,
    after: SlaveView<S>,
    event: Option<Event>,
) -> bool {
    let stats = SlaveStats { delay_resps: counted(v.stats.delay_resps), ..v.stats };
    let lost = SlaveStats { unmatched: counted(stats.unmatched), ..stats };
    match v.pending_delay {
        None => after == (SlaveView { stats: lost, ..v }) && event is None,
        Some((seq, t3)) => if seq != h.sequence_id {
            after == (SlaveView { stats: lost, ..v }) && event is None
        } else {
            match v.last_sync {
                None => after == (SlaveView { pending_delay: None, stats: lost, ..v }) && event is None,
                Some(sync) => if !sync.t2.near(sync.t1) || !receive.near(t3) {
                    after == (SlaveView { pending_delay: None, stats, ..v }) && event is None
                } else {
                    let m = measured(
                        sync,
                        DelaySample { t3, t4: receive, correction_nanos: h.correction() as i64 },
                    );
                    &&& after == (SlaveView {
                        pending_delay: None,
                        last_measurement: Some(m),
                        servo: after.servo,
                        stats,
                        ..v
                    })
                    &&& updated(v.servo, m.offset_nanos as int, after.servo)
                    &&& event == Some(Event::Measured(after.servo.state))
                },
            }
        },
    }
}

/// What a received message does.
pub open spec fn received<S: Sample>(
    v: SlaveView<S>,
    msg: Message,
    rx: Timestamp,
    now: u64,
    after: SlaveView<S>,
    event: Option<Event>,
) -> bool {
    let h = msg.header;
    if h.domain != v.domain {
        after == (SlaveView {
            stats: SlaveStats { wrong_domain: counted(v.stats.wrong_domain), ..v.stats },
            ..v
        }) && event is None
    } else {
        match msg.body {
            Body::Announce(a) => {
                let heard = announce_recorded(v, h, *a, now);
                after == reselected(heard) && event == reselection_event(heard)
            },
            Body::Sync { origin } => if h.message_type == MessageType::Sync && v.follows(h.source) {
                after == sync_taken(v, h, origin, rx) && event is None
            } else {
                after == v && event is None
            },
            Body::FollowUp { precise_origin } => if v.follows(h.source) {
                after == follow_up_taken(v, h, precise_origin) && event is None
            } else {
                after == v && event is None
            },
            Body::DelayResp { receive, requesting } => if v.follows(h.source) && requesting == v.identity {
                delay_resp_taken(v, h, receive, after, event)
            } else {
                after == v && event is None
            },
            _ => after == v && event is None,
        }
    }
}

/// A slave that has heard nothing.
pub open spec fn slave_fresh<S: Sample>(v: SlaveView<S>, identity: PortIdentity, domain: u8) -> bool {
    &&& v.identity == identity
    &&& v.domain == domain
    &&& v.masters == Seq::<Candidate>::empty()
    &&& servo_fresh(v.servo)
    &&& v.master is None
    &&& v.pending_sync == Map::<u16, Timestamp>::empty()
    &&& v.last_sync is None
    &&& v.pending_delay is None
    &&& v.last_measurement is None
    &&& v.stats == no_stats()
}

impl<S: Sample> SlaveState<S> {
    pub open spec fn wf(&self) -> bool {
        self@.well_formed()
    }

    pub fn new(identity: PortIdentity, domain: u8) -> (r: Self)
        ensures
            r.wf(),
            slave_fresh(r@, identity, domain),
    {
        SlaveState {
            identity,
            domain,
            bmca: BestMaster::new(),
            servo: Servo::new(),
            master: None,
            pending_sync: BTreeMap::new(),
            last_sync: None,
            pending_delay: None,
            last_measurement: None,
            stats: SlaveStats::default(),
        }
    }

    pub fn servo(&self) -> (r: &Servo<S>)
        ensures
            r@ == self@.servo,
    {
        &self.servo
    }

    pub fn master(&self) -> (r: Option<MasterDataset>)
        ensures
            r == self@.master,
    {
        self.master
    }

    pub fn stats(&self) -> (r: SlaveStats)
        ensures
            r == self@.stats,
    {
        self.stats
    }

    pub fn last_measurement(&self) -> (r: Option<Measurement>)
        ensures
            r == self@.last_measurement,
    {
        self.last_measurement
    }

    pub fn identity(&self) -> (r: PortIdentity)
        ensures
            r == self@.identity,
    {
        self.identity
    }

    /// The domain this slave is on.
    pub fn domain(&self) -> (r: u8)
        ensures
            r == self@.domain,
    {
        self.domain
    }

    pub fn masters_seen(&self) -> (r: usize)
        ensures
            r == self@.masters.len(),
    {
        self.bmca.known_masters()
    }

    /// Whether a Delay_Req would be useful yet: it can only be combined with a completed
    /// Sync pairing.
    pub fn ready_for_delay_req(&self) -> (r: bool)
        ensures
            r == (self@.master is Some && self@.last_sync is Some),
    {
        self.master.is_some() && self.last_sync.is_some()
    }

    /// Handle a received message. `local_rx` is when it arrived by our clock.
    pub fn on_message(&mut self, msg: &Message, local_rx: Timestamp, now: u64) -> (event: Option<Event>)
        requires
            old(self).wf(),
        ensures
            final(self).wf(),
            received(old(self)@, *msg, local_rx, now, final(self)@, event),
    {
        if msg.header.domain != self.domain {
            self.stats.wrong_domain = self.stats.wrong_domain.wrapping_add(1);
            return None;
        }
        match &msg.body {
            Body::Announce(a) => {
                self.stats.announces = self.stats.announces.wrapping_add(1);
                let dataset = MasterDataset::from_announce(&msg.header, a);
                self.bmca.observe(dataset, msg.header.log_message_interval, now);
                self.reselect()
            },
            Body::Sync { origin } => {
                if msg.header.message_type == MessageType::Sync && self.is_from_master(msg) {
                    self.take_sync(&msg.header, *origin, local_rx);
                }
                None
            },
            Body::FollowUp { precise_origin } => {
                if self.is_from_master(msg) {
                    self.take_follow_up(&msg.header, *precise_origin);
                }
                None
            },
            Body::DelayResp { receive, requesting } => {
                if self.is_from_master(msg) && requesting.same(&self.identity) {
                    self.take_delay_resp(&msg.header, *receive)
                } else {
                    None
                }
            },
            Body::DelayReq { origin: _ } => None,
            Body::Other => None,
        }
    }

    fn take_sync(&mut self, header: &Header, origin: Timestamp, local_rx: Timestamp)
        requires
            old(self).wf(),
        ensures
            final(self).wf(),
            final(self)@ == sync_taken(old(self)@, *header, origin, local_rx),
    {
        self.stats.syncs = self.stats.syncs.wrapping_add(1);
        if header.flags.two_step {
            let given_up: u64 = wait_for(&mut self.pending_sync, header.sequence_id, local_rx);
            if given_up > 0 {
                self.stats.unmatched = self.stats.unmatched.wrapping_add(1);
            }
        } else {
            self.last_sync = Some(
                SyncSample { t1: origin, t2: local_rx, correction_nanos: header.correction_nanos() },
            );
            self.pending_sync.clear();
        }
    }

    fn take_follow_up(&mut self, header: &Header, origin: Timestamp)
        requires
            old(self).wf(),
        ensures
            final(self).wf(),
            final(self)@ == follow_up_taken(old(self)@, *header, origin),
    {
        self.stats.follow_ups = self.stats.follow_ups.wrapping_add(1);
        let seq: u16 = header.sequence_id;
        match self.pending_sync.remove(&seq) {
            Some(t2) => {
                self.last_sync = Some(
                    SyncSample { t1: origin, t2, correction_nanos: header.correction_nanos() },
                );
                forget_earlier(&mut self.pending_sync, seq);
            },
            None => {
                self.stats.unmatched = self.stats.unmatched.wrapping_add(1);
                assert(self.pending_sync@ =~= old(self).pending_sync@);
            },
        }
    }

    fn take_delay_resp(&mut self, header: &Header, receive: Timestamp) -> (event: Option<Event>)
        requires
            old(self).wf(),
        ensures
            final(self).wf(),
            delay_resp_taken(old(self)@, *header, receive, final(self)@, event),
    {
        self.stats.delay_resps = self.stats.delay_resps.wrapping_add(1);
        match self.pending_delay {
            None => {
                self.stats.unmatched = self.stats.unmatched.wrapping_add(1);
                None
            },
            Some((seq, t3)) => {
                if seq != header.sequence_id {
                    self.stats.unmatched = self.stats.unmatched.wrapping_add(1);
                    return None;
                }
                self.pending_delay = None;
                match self.last_sync {
                    None => {
                        self.stats.unmatched = self.stats.unmatched.wrapping_add(1);
                        None
                    },
                    Some(sync) => {
                        if !sync.t2.is_near(sync.t1) || !receive.is_near(t3) {
                            return None;
                        }
                        let m = measure(
                            sync,
                            DelaySample { t3, t4: receive, correction_nanos: header.correction_nanos() },
                        );
                        self.last_measurement = Some(m);
                        let state = self.servo.update(m);
                        Some(Event::Measured(state))
                    },
                }
            },
        }
    }

    /// Record that a Delay_Req went out, with the local time it left.
    pub fn on_delay_req_sent(&mut self, sequence_id: u16, t3: Timestamp)
        requires
            old(self).wf(),
        ensures
            final(self).wf(),
            final(self)@ == (SlaveView { pending_delay: Some((sequence_id, t3)), ..old(self)@ }),
    {
        self.pending_delay = Some((sequence_id, t3));
    }

    /// Drop masters that have gone quiet and re-run selection.
    pub fn tick(&mut self, now: u64) -> (event: Option<Event>)
        requires
            old(self).wf(),
        ensures
            final(self).wf(),
            ticked(old(self)@, now, final(self)@, event),
    {
        let dropped: usize = self.bmca.expire(now);
        if dropped > 0 {
            return self.reselect();
        }
        proof {
            broadcast use Seq::lemma_filter_len;

            lemma_filter_keeps_all(old(self)@.masters, alive(now));
        }
        None
    }

    fn reselect(&mut self) -> (event: Option<Event>)
        requires
            old(self).wf(),
        ensures
            final(self).wf(),
            final(self)@ == reselected(old(self)@),
            event == reselection_event(old(self)@),
    {
        let best = self.bmca.best();
        let changed = match (&self.master, &best) {
            (Some(a), Some(b)) => !a.grandmaster.same(&b.grandmaster) || !a.sender.same(&b.sender),
            (None, Some(_)) => true,
            (Some(_), None) => true,
            (None, None) => false,
        };
        self.master = best;
        if changed {
            self.pending_sync.clear();
            self.last_sync = None;
            self.pending_delay = None;
            Some(Event::MasterChanged)
        } else {
            None
        }
    }

    fn is_from_master(&self, msg: &Message) -> (r: bool)
        ensures
            r == self@.follows(msg.header.source),
    {
        match self.master {
            Some(m) => m.sender.same(&msg.header.source),
            None => false,
        }
    }
}

/// What the passing of time does: quiet masters are dropped, and only then is selection
/// run again.
pub open spec fn ticked<S>(v: SlaveView<S>, now: u64, after: SlaveView<S>, event: Option<Event>) -> bool {
    let left = SlaveView { masters: v.masters.filter(alive(now)), ..v };
    if left.masters.len() < v.masters.len() {
        after == reselected(left) && event == reselection_event(left)
    } else {
        after == v && event is None
    }
}

proof fn lemma_filter_keeps_all(s: Seq<Candidate>, p: spec_fn(Candidate) -> bool)
    requires
        s.filter(p).len() >= s.len(),
    ensures
        s.filter(p) == s,
    decreases s.len(),
{
    reveal(Seq::filter);
    broadcast use Seq::lemma_filter_len;

    if s.len() > 0 {
        let rest = s.drop_last();
        assert(rest.filter(p).len() <= rest.len());
        lemma_filter_keeps_all(rest, p);
        assert(s =~= rest.push(s.last()));
    } else {
        assert(s.filter(p) =~= s);
    }
}

// What holds of the exchange.

/// Traffic of another domain changes nothing but its own counter.
pub proof fn law_other_domains_are_ignored<S: Sample>(
    v: SlaveView<S>,
    msg: Message,
    rx: Timestamp,
    now: u64,
    after: SlaveView<S>,
    event: Option<Event>,
)
    requires
        msg.header.domain != v.domain,
        received(v, msg, rx, now, after, event),
    ensures
        event is None,
        after.master == v.master,
        after.servo == v.servo,
        after.last_measurement == v.last_measurement,
        after.stats.wrong_domain == counted(v.stats.wrong_domain),
{
}

/// Nothing but an Announce from a clock that is not our master changes anything.
pub proof fn law_strangers_are_ignored<S: Sample>(
    v: SlaveView<S>,
    msg: Message,
    rx: Timestamp,
    now: u64,
    after: SlaveView<S>,
    event: Option<Event>,
)
    requires
        msg.header.domain == v.domain,
        !(msg.body is Announce),
        !v.follows(msg.header.source),
        received(v, msg, rx, now, after, event),
    ensures
        after == v,
        event is None,
{
}

/// An exchange of which one way cannot be told in 64 bits leaves the servo alone.
pub proof fn law_nonsense_exchange_is_rejected<S: Sample>(
    v: SlaveView<S>,
    msg: Message,
    receive: Timestamp,
    requesting: PortIdentity,
    sync: SyncSample,
    seq: u16,
    t3: Timestamp,
    rx: Timestamp,
    now: u64,
    after: SlaveView<S>,
    event: Option<Event>,
)
    requires
        msg.body == (Body::DelayResp { receive, requesting }),
        v.last_sync == Some(sync),
        v.pending_delay == Some((seq, t3)),
        !sync.t2.near(sync.t1) || !receive.near(t3),
        received(v, msg, rx, now, after, event),
    ensures
        after.servo == v.servo,
        after.last_measurement == v.last_measurement,
        event is None,
{
}

/// Another slave's Delay_Resp is not taken as our own.
pub proof fn law_others_responses_are_ignored<S: Sample>(
    v: SlaveView<S>,
    msg: Message,
    receive: Timestamp,
    requesting: PortIdentity,
    rx: Timestamp,
    now: u64,
    after: SlaveView<S>,
    event: Option<Event>,
)
    requires
        msg.header.domain == v.domain,
        msg.body == (Body::DelayResp { receive, requesting }),
        requesting != v.identity,
        received(v, msg, rx, now, after, event),
    ensures
        after == v,
        event is None,
{
}

/// The servo moves only when a measurement completes, and a change of master leaves
/// nothing in flight that could complete one.
pub proof fn law_a_change_of_master_drops_work_in_flight<S: Sample>(
    v: SlaveView<S>,
    msg: Message,
    rx: Timestamp,
    now: u64,
    after: SlaveView<S>,
    event: Option<Event>,
)
    requires
        received(v, msg, rx, now, after, event),
    ensures
        event == Some(Event::MasterChanged) ==> after.pending_sync == Map::<u16, Timestamp>::empty()
            && after.last_sync is None && after.pending_delay is None && after.servo == v.servo,
        event is None ==> after.servo == v.servo && after.last_measurement == v.last_measurement,
{
}

/// A two-step exchange with our master: the Sync's receive time is paired with its own
/// Follow_Up's transmit time.
pub proof fn law_two_step_pairs_by_sequence<S: Sample>(
    v: SlaveView<S>,
    h: Header,
    f: Header,
    placeholder: Timestamp,
    rx: Timestamp,
    origin: Timestamp,
)
    requires
        v.well_formed(),
        v.pending_sync == Map::<u16, Timestamp>::empty(),
        h.flags.two_step,
        f.sequence_id == h.sequence_id,
    ensures
        follow_up_taken(sync_taken(v, h, placeholder, rx), f, origin).last_sync == Some(
            SyncSample { t1: origin, t2: rx, correction_nanos: f.correction() as i64 },
        ),
{
    let grown = v.pending_sync.insert(h.sequence_id, rx);
    assert(v.pending_sync.len() == 0);
    assert(grown.len() == 1);
}

/// A Follow_Up for another Sync is not paired with the one that waits.
pub proof fn law_mismatched_follow_up_pairs_nothing<S: Sample>(v: SlaveView<S>, f: Header, origin: Timestamp)
    requires
        !v.pending_sync.contains_key(f.sequence_id),
    ensures
        follow_up_taken(v, f, origin).last_sync == v.last_sync,
        follow_up_taken(v, f, origin).stats.unmatched == counted(v.stats.unmatched),
{
}

} // verus!
