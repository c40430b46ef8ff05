//! The decisions of a slave port: what to do with what arrives, and when to ask for the
//! path delay.

use vstd::prelude::*;

use crate::ptp::message::{
    delay_req_wire, hyphenated, message_error, message_is, write_delay_req, Message, PortIdentity, Timestamp,
};
use crate::ptp::servo::{LockState, Servo};
use crate::ptp::shared::{shift_nanos, shifted, timestamp_from_nanos, timestamp_of};
use crate::ptp::slave::{received, slave_fresh, ticked, Event, SlaveState, SlaveStats, SlaveView};
use crate::sample::Sample;

verus! {

/// The PTP primary multicast address (IEEE 1588-2008 annex D).
pub const PTP_PRIMARY: [u8; 4] = [224, 0, 1, 129];

/// Event port: Sync and Delay_Req, the messages whose transmission instant matters.
pub const PORT_EVENT: u16 = 319;

/// General port: Follow_Up, Delay_Resp, Announce.
pub const PORT_GENERAL: u16 = 320;

/// The AES67 media profile's default domain.
pub const AES67_DEFAULT_DOMAIN: u8 = 0;

/// PTP is not meant to be routed.
pub const PTP_TTL: u32 = 1;

/// How often to ask for the path delay by default: every second.
pub const DELAY_INTERVAL_NANOS: u64 = 1_000_000_000;

/// What to show an operator.
#[derive(Debug, Clone)]
pub struct PtpStatus {
    pub domain: u8,
    pub grandmaster: Option<String>,
    pub masters_seen: usize,
    pub state: LockState,
    pub offset_nanos: i64,
    pub delay_nanos: i64,
    pub steps: u64,
    pub stats: SlaveStats,
}

/// A slave port without its sockets. Times are nanoseconds on a monotonic clock.
pub struct PtpPort<S> {
    state: SlaveState<S>,
    delay_seq: u16,
    last_delay_req: u64,
    delay_interval: u64,
}

/// The port as a mathematical value.
pub struct PortView<S> {
    pub slave: SlaveView<S>,
    pub delay_seq: u16,
    pub last_delay_req: u64,
    pub delay_interval: u64,
}

impl<S: Sample> View for PtpPort<S> {
    type V = PortView<S>;

    closed spec fn view(&self) -> PortView<S> {
        PortView {
            slave: self.state@,
            delay_seq: self.delay_seq,
            last_delay_req: self.last_delay_req,
            delay_interval: self.delay_interval,
        }
    }
}

impl<S> PortView<S> {
    /// Whether it is time to ask for the path delay, and the answer would be of use.
    pub open spec fn asks(self, now: u64) -> bool {
        &&& self.slave.master is Some
        &&& self.slave.last_sync is Some
        &&& shifted(now as int, -(self.last_delay_req as int)) >= self.delay_interval
    }
}

/// The sequence id after this one.
pub open spec fn next_sequence(q: u16) -> u16 {
    if q == u16::MAX {
        0
    } else {
        (q + 1) as u16
    }
}

/// What asking for the path delay does: if it is time, a Delay_Req under the next sequence id.
pub open spec fn requested<S>(v: PortView<S>, now: u64, packet: Option<Seq<u8>>, after: PortView<S>) -> bool {
    match packet {
        Some(bytes) => {
            &&& v.asks(now)
            &&& after == (PortView { delay_seq: next_sequence(v.delay_seq), ..v })
            &&& bytes == delay_req_wire(v.slave.identity, v.slave.domain, after.delay_seq)
        },
        None => !v.asks(now) && after == v,
    }
}

/// The port once its Delay_Req has gone out.
pub open spec fn request_sent<S>(v: PortView<S>, t3: Timestamp, now: u64) -> PortView<S> {
    PortView {
        slave: SlaveView { pending_delay: Some((v.delay_seq, t3)), ..v.slave },
        last_delay_req: now,
        ..v
    }
}

/// The port with another time between its Delay_Reqs.
pub open spec fn interval_set<S>(v: PortView<S>, interval: u64) -> PortView<S> {
    PortView { delay_interval: interval, ..v }
}

/// What a datagram does to the port: what its message does to the slave, where it is one.
pub open spec fn datagram_received<S: Sample>(
    v: PortView<S>,
    datagram: Seq<u8>,
    rx: Timestamp,
    now: u64,
    after: PortView<S>,
    event: Option<Event>,
) -> bool {
    match message_error(datagram) {
        Some(_) => after == v && event is None,
        None => exists|m: Message| #[trigger]
            message_is(m, datagram) && received(v.slave, m, rx, now, after.slave, event) && after == (PortView {
                slave: after.slave,
                ..v
            }),
    }
}

/// What passing time does to the port: what it does to the slave.
pub open spec fn port_ticked<S: Sample>(v: PortView<S>, now: u64, after: PortView<S>, event: Option<Event>) -> bool {
    ticked(v.slave, now, after.slave, event) && after == (PortView { slave: after.slave, ..v })
}

/// What a status says of a slave.
pub open spec fn status_is<S>(r: PtpStatus, v: SlaveView<S>) -> bool {
    &&& r.domain == v.domain
    &&& match v.master {
        Some(m) => r.grandmaster is Some && r.grandmaster->0@ == hyphenated(m.grandmaster@),
        None => r.grandmaster is None,
    }
    &&& r.masters_seen == v.masters.len()
    &&& r.state == v.servo.state
    &&& match v.last_measurement {
        Some(m) => r.offset_nanos == m.offset_nanos && r.delay_nanos == m.delay_nanos,
        None => r.offset_nanos == 0 && r.delay_nanos == 0,
    }
    &&& r.steps == v.servo.steps
    &&& r.stats == v.stats
}

impl<S: Sample> PtpPort<S> {
    pub open spec fn wf(&self) -> bool {
        self@.slave.well_formed()
    }

    /// A port that has heard nothing.
    pub fn new(identity: PortIdentity, domain: u8, now: u64) -> (r: Self)
        ensures
            r.wf(),
            slave_fresh(r@.slave, identity, domain),
            r@.delay_seq == 0,
            r@.last_delay_req == now,
            r@.delay_interval == DELAY_INTERVAL_NANOS,
    {
        PtpPort {
            state: SlaveState::new(identity, domain),
            delay_seq: 0,
            last_delay_req: now,
            delay_interval: DELAY_INTERVAL_NANOS,
        }
    }

    /// Local time corrected by the servo: PTP time as we currently believe it.
    ///
    /// Every measurement is taken with it, which is what closes the servo's loop.
    pub fn ptp_now(&self, local_nanos: u128) -> (r: Timestamp)
        requires
            local_nanos + i64::MAX <= i128::MAX,
        ensures
            r == timestamp_of(shifted(local_nanos as int, self@.slave.servo.offset)),
    {
        timestamp_from_nanos(shift_nanos(local_nanos, self.state.servo().local_to_ptp_offset()))
    }

    /// How often to send Delay_Reqs.
    pub fn set_delay_interval(&mut self, interval: u64)
        requires
            old(self).wf(),
        ensures
            final(self).wf(),
            final(self)@ == interval_set(old(self)@, interval),
    {
        self.delay_interval = interval;
    }

    pub fn lock_state(&self) -> (r: LockState)
        ensures
            r == self@.slave.servo.state,
    {
        self.state.servo().state()
    }

    /// The clock servo.
    pub fn servo(&self) -> (r: &Servo<S>)
        ensures
            r@ == self@.slave.servo,
    {
        self.state.servo()
    }

    pub fn status(&self) -> (r: PtpStatus)
        ensures
            status_is(r, self@.slave),
    {
        let m = self.state.last_measurement();
        let grandmaster = match self.state.master() {
            Some(d) => Some(d.grandmaster.text()),
            None => None,
        };
        let offset_nanos: i64 = match m {
            Some(m) => m.offset_nanos,
            None => 0,
        };
        let delay_nanos: i64 = match m {
            Some(m) => m.delay_nanos,
            None => 0,
        };
        PtpStatus {
            domain: self.state.domain(),
            grandmaster,
            masters_seen: self.state.masters_seen(),
            state: self.state.servo().state(),
            offset_nanos,
            delay_nanos,
            steps: self.state.servo().steps(),
            stats: self.state.stats(),
        }
    }

    /// Act on a datagram that arrived at `rx`. What is no PTP message is ignored.
    pub fn receive(&mut self, datagram: &[u8], rx: Timestamp, now: u64) -> (event: Option<Event>)
        requires
            old(self).wf(),
        ensures
            final(self).wf(),
            datagram_received(old(self)@, datagram@, rx, now, final(self)@, event),
    {
        match Message::parse(datagram) {
            Ok(msg) => self.state.on_message(&msg, rx, now),
            Err(_) => None,
        }
    }

    /// Let time pass.
    pub fn tick(&mut self, now: u64) -> (event: Option<Event>)
        requires
            old(self).wf(),
        ensures
            final(self).wf(),
            port_ticked(old(self)@, now, final(self)@, event),
    {
        self.state.tick(now)
    }

    /// The Delay_Req to send now, if one is due. It carries this port's own domain.
    pub fn next_delay_req(&mut self, now: u64) -> (r: Option<[u8; 44]>)
        requires
            old(self).wf(),
        ensures
            final(self).wf(),
            match r {
                Some(packet) => requested(old(self)@, now, Some(packet@), final(self)@),
                None => requested(old(self)@, now, None, final(self)@),
            },
    {
        if !self.state.ready_for_delay_req() {
            return None;
        }
        if now.saturating_sub(self.last_delay_req) < self.delay_interval {
            return None;
        }
        self.delay_seq = self.delay_seq.wrapping_add(1);
        let mut packet = [0u8; 44];
        write_delay_req(self.state.identity(), self.state.domain(), self.delay_seq, &mut packet);
        Some(packet)
    }

    /// Record that the Delay_Req went out, with the PTP time it left.
    pub fn delay_req_sent(&mut self, t3: Timestamp, now: u64)
        requires
            old(self).wf(),
        ensures
            final(self).wf(),
            final(self)@ == request_sent(old(self)@, t3, now),
    {
        self.state.on_delay_req_sent(self.delay_seq, t3);
        self.last_delay_req = now;
    }
}

} // verus!
