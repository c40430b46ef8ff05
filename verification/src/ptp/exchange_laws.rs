//! What a slave makes of the messages of its domain: which master it follows, which times it
//! pairs, and what it measures.

use std::cmp::Ordering;

use vstd::prelude::*;

use crate::bytes::be_value;
use crate::ptp::bmca::{
    alive, all_agreed, best_of, better, compare, interval_nanos, law_best_is_best, log_interval_to_duration, observed,
    rank_before, sender_position, Candidate, MasterDataset,
};
use crate::ptp::message::{Announce, Body, ClockIdentity, Header, Message, MessageType, PortIdentity, Timestamp};
use crate::ptp::pending::{is_smallest, smallest};
use crate::ptp::servo::{updated, Measurement, Servo, SyncSample};
use crate::ptp::servo_laws::flat;
use crate::ptp::slave::{received, ticked, Event, SlaveState, SlaveStats, SlaveView};
use crate::sample::Sample;

verus! {

// The master.

/// Whether one identity comes before another: the first byte that differs decides.
pub open spec fn id_before(a: ClockIdentity, b: ClockIdentity) -> bool {
    exists|j: int|
        0 <= j < 8 && #[trigger] a.0@[j] < b.0@[j] && (forall|i: int| 0 <= i < j ==> #[trigger] a.0@[i] == b.0@[i])
}

/// Bytes spell a smaller number exactly where the first that differs is smaller.
proof fn lemma_first_difference(a: Seq<u8>, b: Seq<u8>)
    requires
        a.len() == b.len(),
    ensures
        be_value(a) < be_value(b) <==> exists|j: int|
            0 <= j < a.len() && #[trigger] a[j] < b[j] && (forall|i: int| 0 <= i < j ==> #[trigger] a[i] == b[i]),
    decreases a.len(),
{
    if a.len() > 0 {
        let (p, q) = (a.drop_last(), b.drop_last());
        let n = a.len() - 1;
        lemma_first_difference(p, q);
        lemma_first_difference(q, p);
        if be_value(p) < be_value(q) {
            let j = choose|j: int|
                0 <= j < p.len() && #[trigger] p[j] < q[j] && (forall|i: int| 0 <= i < j ==> #[trigger] p[i] == q[i]);
            assert(a[j] < b[j]);
            assert forall|i: int| 0 <= i < j implies #[trigger] a[i] == b[i] by {
                assert(p[i] == q[i]);
            }
        } else if be_value(q) < be_value(p) {
            let j = choose|j: int|
                0 <= j < p.len() && #[trigger] q[j] < p[j] && (forall|i: int| 0 <= i < j ==> #[trigger] q[i] == p[i]);
            assert(q[j] < p[j]);
            assert forall|k: int|
                0 <= k < a.len() && #[trigger] a[k] < b[k] implies !(forall|i: int|
                0 <= i < k ==> #[trigger] a[i] == b[i]) by {
                if k > j {
                    assert(a[j] != b[j]);
                } else if k < j {
                    assert(q[k] == p[k]);
                }
            }
        } else {
            lemma_same_prefix(p, q);
            assert forall|i: int| 0 <= i < n implies #[trigger] a[i] == b[i] by {
                assert(p[i] == q[i]);
            }
            if a[n] < b[n] {
                assert(a[n] < b[n]);
            } else {
                assert forall|k: int| 0 <= k < a.len() implies !(#[trigger] a[k] < b[k]) by {
                    if k < n {
                        assert(p[k] == q[k]);
                    }
                }
            }
        }
    }
}

proof fn lemma_same_prefix(a: Seq<u8>, b: Seq<u8>)
    requires
        a.len() == b.len(),
        be_value(a) == be_value(b),
    ensures
        a == b,
    decreases a.len(),
{
    if a.len() > 0 {
        lemma_same_prefix(a.drop_last(), b.drop_last());
        assert(a =~= a.drop_last().push(a.last()));
        assert(b =~= b.drop_last().push(b.last()));
    } else {
        assert(a =~= b);
    }
}

/// Of two grandmasters the one with the lower priority1 is better; then the lower class, the
/// lower accuracy, the lower variance, the lower priority2, and at last the lower identity. Of
/// two paths to one grandmaster the shorter is better; then the lower sender and port.
pub proof fn law_comparison_goes_by_the_standard(a: MasterDataset, b: MasterDataset, r: Ordering)
    requires
        call_ensures(compare, (&a, &b), r),
    ensures
        a.grandmaster != b.grandmaster ==> (r == Ordering::Less <==> {
            let (x, y) = (a.quality, b.quality);
            ||| a.priority1 < b.priority1
            ||| a.priority1 == b.priority1 && x.class < y.class
            ||| a.priority1 == b.priority1 && x.class == y.class && x.accuracy < y.accuracy
            ||| a.priority1 == b.priority1 && x.class == y.class && x.accuracy == y.accuracy
                && x.offset_scaled_log_variance < y.offset_scaled_log_variance
            ||| a.priority1 == b.priority1 && x.class == y.class && x.accuracy == y.accuracy
                && x.offset_scaled_log_variance == y.offset_scaled_log_variance && a.priority2 < b.priority2
            ||| a.priority1 == b.priority1 && x.class == y.class && x.accuracy == y.accuracy
                && x.offset_scaled_log_variance == y.offset_scaled_log_variance && a.priority2 == b.priority2
                && id_before(a.grandmaster, b.grandmaster)
        }),
        a.grandmaster == b.grandmaster ==> (r == Ordering::Less <==> {
            ||| a.steps_removed < b.steps_removed
            ||| a.steps_removed == b.steps_removed && id_before(a.sender.clock, b.sender.clock)
            ||| a.steps_removed == b.steps_removed && a.sender.clock == b.sender.clock && a.sender.port
                < b.sender.port
        }),
{
    reveal_with_fuel(rank_before, 7);
    lemma_first_difference(a.grandmaster@, b.grandmaster@);
    lemma_first_difference(a.sender.clock@, b.sender.clock@);
    if be_value(a.sender.clock@) == be_value(b.sender.clock@) {
        lemma_same_prefix(a.sender.clock@, b.sender.clock@);
        crate::ptp::message::lemma_identity_ext(a.sender.clock, b.sender.clock);
    }
    let (p, q) = (a.path_rank(), b.path_rank());
    assert(p.drop_first()[0] == p[1] && p.drop_first().drop_first()[0] == p[2]);
    assert(q.drop_first()[0] == q[1] && q.drop_first().drop_first()[0] == q[2]);
    let (c, d) = (a.clock_rank(), b.clock_rank());
    assert(c.drop_first()[0] == c[1] && c.drop_first().drop_first()[0] == c[2]);
    assert(d.drop_first()[0] == d[1] && d.drop_first().drop_first()[0] == d[2]);
    let (c3, d3) = (c.drop_first().drop_first().drop_first(), d.drop_first().drop_first().drop_first());
    assert(c3[0] == c[3] && c3.drop_first()[0] == c[4] && c3.drop_first().drop_first()[0] == c[5]);
    assert(d3[0] == d[3] && d3.drop_first()[0] == d[4] && d3.drop_first().drop_first()[0] == d[5]);
}

/// What an Announce says of a clock.
pub open spec fn announces(c: Candidate, h: Header, a: Announce) -> bool {
    &&& c.dataset.grandmaster == a.grandmaster_identity
    &&& c.dataset.priority1 == a.grandmaster_priority1
    &&& c.dataset.quality == a.grandmaster_quality
    &&& c.dataset.priority2 == a.grandmaster_priority2
    &&& c.dataset.steps_removed == a.steps_removed
    &&& c.dataset.sender == h.source
}

proof fn lemma_observed(s: Seq<Candidate>, t: Candidate, from: int)
    requires
        0 <= from,
    ensures
        match sender_position(s, t.dataset.sender, from) {
            Some(i) => from <= i < s.len() && s[i].dataset.sender == t.dataset.sender && forall|j: int|
                from <= j < i ==> (#[trigger] s[j]).dataset.sender != t.dataset.sender,
            None => forall|j: int| from <= j < s.len() ==> (#[trigger] s[j]).dataset.sender != t.dataset.sender,
        },
    decreases s.len() - from,
{
    if from < s.len() && s[from].dataset.sender != t.dataset.sender {
        lemma_observed(s, t, from + 1);
    }
}

/// An Announce of our domain is remembered as the latest word of its sender, with the time it
/// came and a patience of three of its intervals; every other master is known as before; and
/// the master followed is one that is known, with none better among them.
pub proof fn law_announce_is_remembered<S: Sample>(
    v: SlaveView<S>,
    msg: Message,
    a: Announce,
    rx: Timestamp,
    now: u64,
    after: SlaveView<S>,
    event: Option<Event>,
    interval: u64,
)
    requires
        v.well_formed(),
        msg.header.domain == v.domain,
        msg.body == Body::Announce(Box::new(a)),
        received(v, msg, rx, now, after, event),
        call_ensures(log_interval_to_duration, (msg.header.log_message_interval,), interval),
    ensures
        exists|i: int|
            0 <= i < after.masters.len() && announces(#[trigger] after.masters[i], msg.header, a)
                && after.masters[i].last_seen == now && after.masters[i].timeout == 3 * interval,
        forall|i: int|
            0 <= i < after.masters.len() ==> (#[trigger] after.masters[i]).dataset.sender == msg.header.source
                || v.masters.contains(after.masters[i]),
        forall|i: int|
            0 <= i < v.masters.len() ==> (#[trigger] v.masters[i]).dataset.sender == msg.header.source
                || after.masters.contains(v.masters[i]),
        after.master is Some,
        after.servo == v.servo,
{
    let heard = crate::ptp::slave::announce_recorded(v, msg.header, a, now);
    let t = Candidate {
        dataset: MasterDataset {
            grandmaster: a.grandmaster_identity,
            priority1: a.grandmaster_priority1,
            quality: a.grandmaster_quality,
            priority2: a.grandmaster_priority2,
            steps_removed: a.steps_removed,
            sender: msg.header.source,
        },
        last_seen: now,
        timeout: (3 * interval) as u64,
    };
    assert(after.masters == observed(v.masters, t));
    lemma_observed(v.masters, t, 0);
    let k = match sender_position(v.masters, t.dataset.sender, 0) {
        Some(i) => i,
        None => v.masters.len() as int,
    };
    assert(after.masters[k] == t);
    assert(announces(after.masters[k], msg.header, a));
    assert forall|i: int| 0 <= i < after.masters.len() implies (#[trigger] after.masters[i]).dataset.sender
        == msg.header.source || v.masters.contains(after.masters[i]) by {
        if i != k {
            assert(after.masters[i] == v.masters[i]);
        }
    }
    assert forall|i: int| 0 <= i < v.masters.len() implies (#[trigger] v.masters[i]).dataset.sender
        == msg.header.source || after.masters.contains(v.masters[i]) by {
        if i != k {
            assert(after.masters[i] == v.masters[i]);
        }
    }
}

/// The master followed after an Announce is one of those known, and none of them is better.
pub proof fn law_best_master_is_followed<S: Sample>(
    v: SlaveView<S>,
    msg: Message,
    rx: Timestamp,
    now: u64,
    after: SlaveView<S>,
    event: Option<Event>,
)
    requires
        msg.header.domain == v.domain,
        msg.body is Announce,
        received(v, msg, rx, now, after, event),
        after.masters.len() > 0,
        all_agreed(after.masters),
    ensures
        after.master matches Some(m) && (exists|i: int|
            0 <= i < after.masters.len() && (#[trigger] after.masters[i]).dataset == m) && (forall|i: int|
            0 <= i < after.masters.len() ==> !better((#[trigger] after.masters[i]).dataset, m)),
        event == Some(Event::MasterChanged) <==> !(v.master matches Some(m) && after.master matches Some(n)
            && m.grandmaster == n.grandmaster && m.sender == n.sender),
{
    law_best_is_best(after.masters, after.masters.len() as int);
    let m = best_of(after.masters, after.masters.len() as int);
    let i = choose|i: int| 0 <= i < after.masters.len() && #[trigger] after.masters[i].dataset == m;
    assert(after.masters[i].dataset == m);
}

/// Announce intervals double with each step of their exponent, and that of nought is a second.
pub proof fn law_intervals_double(n: i8, a: u64, b: u64)
    requires
        call_ensures(log_interval_to_duration, (n,), a),
        call_ensures(log_interval_to_duration, ((n + 1) as i8,), b),
        -9 <= n < 16,
    ensures
        b == 2 * a,
        n == 0 ==> a == 1_000_000_000,
{
    vstd::arithmetic::power2::lemma2_to64();
    if n >= 0 {
        vstd::arithmetic::power2::lemma_pow2_unfold((n + 1) as nat);
    } else {
        assert(interval_nanos(0) == 1_000_000_000);
        assert(interval_nanos(-1) == 500000000);
        assert(interval_nanos(-2) == 250000000);
        assert(interval_nanos(-3) == 125000000);
        assert(interval_nanos(-4) == 62500000);
        assert(interval_nanos(-5) == 31250000);
        assert(interval_nanos(-6) == 15625000);
        assert(interval_nanos(-7) == 7812500);
        assert(interval_nanos(-8) == 3906250);
        assert(interval_nanos(-9) == 1953125);
    }
}

/// An interval is never longer than 2^16 seconds; and a fraction of a second is the nearest whole
/// number of nanoseconds to it, the even one of two that are equally near.
pub proof fn law_intervals_are_capped_and_rounded(n: i8, a: u64)
    requires
        call_ensures(log_interval_to_duration, (n,), a),
    ensures
        n > 16 ==> a == 65536 * 1_000_000_000,
        n < 0 ==> ({
            let p = vstd::arithmetic::power2::pow2(-n as nat);
            let off = a * p - 1_000_000_000;
            &&& -p <= 2 * off <= p
            &&& 2 * off == p || 2 * off == -p ==> a % 2 == 0
        }),
{
    vstd::arithmetic::power2::lemma2_to64();
    if n < 0 {
        let p = vstd::arithmetic::power2::pow2(-n as nat) as int;
        vstd::arithmetic::power2::lemma_pow2_pos(-n as nat);
        let q = 1_000_000_000int / p;
        let r = 1_000_000_000int % p;
        vstd::arithmetic::div_mod::lemma_fundamental_div_mod(1_000_000_000, p);
        assert(q * p == p * q) by (nonlinear_arith);
        assert((q + 1) * p == q * p + p) by (nonlinear_arith);
        assert(a == q || a == q + 1);
    }
}

/// When time passes, exactly those masters are forgotten that have been silent for their
/// patience or longer.
pub proof fn law_silent_masters_are_forgotten<S: Sample>(
    v: SlaveView<S>,
    now: u64,
    after: SlaveView<S>,
    event: Option<Event>,
    c: Candidate,
)
    requires
        ticked(v, now, after, event),
        v.masters.contains(c),
        c.timeout > 0,
    ensures
        after.masters.contains(c) <==> now - c.last_seen < c.timeout,
        after.servo == v.servo,
        after.last_measurement == v.last_measurement,
        after.stats == v.stats,
{
    let left = v.masters.filter(alive(now));
    lemma_filtered(v.masters, alive(now), c);
    if left.len() >= v.masters.len() {
        lemma_nothing_filtered(v.masters, alive(now));
    }
}

/// What is filtered is what is there and passes.
proof fn lemma_filtered(s: Seq<Candidate>, p: spec_fn(Candidate) -> bool, c: Candidate)
    ensures
        s.filter(p).contains(c) <==> s.contains(c) && p(c),
    decreases s.len(),
{
    reveal(Seq::filter);
    if s.len() > 0 {
        let rest = s.drop_last();
        let last = s.last();
        lemma_filtered(rest, p, c);
        assert(s =~= rest.push(last));
        if s.contains(c) && !rest.contains(c) {
            let i = choose|i: int| 0 <= i < s.len() && s[i] == c;
            if i < rest.len() {
                assert(rest[i] == c);
            }
        }
        if rest.contains(c) {
            let i = choose|i: int| 0 <= i < rest.len() && rest[i] == c;
            assert(s[i] == c);
        }
        assert(s[s.len() - 1] == last);
        let kept = rest.filter(p);
        if p(last) {
            let grown = kept.push(last);
            assert(grown[kept.len() as int] == last);
            if kept.contains(c) {
                let i = choose|i: int| 0 <= i < kept.len() && kept[i] == c;
                assert(grown[i] == c);
            }
            if grown.contains(c) && c != last {
                let i = choose|i: int| 0 <= i < grown.len() && grown[i] == c;
                assert(kept[i] == c);
            }
        }
    }
}

proof fn lemma_nothing_filtered(s: Seq<Candidate>, p: spec_fn(Candidate) -> bool)
    requires
        s.filter(p).len() >= s.len(),
    ensures
        s.filter(p) == s,
    decreases s.len(),
{
    reveal(Seq::filter);
    broadcast use Seq::lemma_filter_len;

    if s.len() > 0 {
        let rest = s.drop_last();
        if p(s.last()) {
            lemma_nothing_filtered(rest, p);
            assert(s =~= rest.push(s.last()));
        } else {
            assert(rest.filter(p).len() <= rest.len());
        }
    } else {
        assert(s.filter(p) =~= s);
    }
}

// Sync.

/// Whether a message is from the master that is followed, on its domain.
pub open spec fn from_master<S>(v: SlaveView<S>, msg: Message) -> bool {
    &&& msg.header.domain == v.domain
    &&& v.master matches Some(m) && m.sender == msg.header.source
}

/// What the switches report of their own, in whole nanoseconds: the field counts parts of
/// 65536, and is rounded down.
pub open spec fn reported(h: Header) -> int {
    h.correction_subnanos as int / 65536
}

/// A one-step Sync of our master is a pairing by itself: its own transmit time, and the time it
/// came.
pub proof fn law_one_step_sync_is_complete<S: Sample>(
    v: SlaveView<S>,
    msg: Message,
    origin: Timestamp,
    rx: Timestamp,
    now: u64,
    after: SlaveView<S>,
    event: Option<Event>,
)
    requires
        from_master(v, msg),
        msg.header.message_type == MessageType::Sync,
        msg.body == (Body::Sync { origin }),
        !msg.header.flags.two_step,
        received(v, msg, rx, now, after, event),
    ensures
        event is None,
        after.last_sync matches Some(s) && s.t1 == origin && s.t2 == rx && s.correction_nanos == reported(msg.header),
        forall|q: u16| !#[trigger] after.pending_sync.contains_key(q),
        v.stats.syncs < u64::MAX ==> after.stats.syncs == v.stats.syncs + 1,
        after.servo == v.servo,
        after.pending_delay == v.pending_delay,
{
}

/// A two-step Sync of our master pairs nothing: its time of arrival waits, under its sequence
/// id, and its placeholder is not used.
pub proof fn law_two_step_sync_waits<S: Sample>(
    v: SlaveView<S>,
    msg: Message,
    origin: Timestamp,
    rx: Timestamp,
    now: u64,
    after: SlaveView<S>,
    event: Option<Event>,
)
    requires
        v.well_formed(),
        from_master(v, msg),
        msg.header.message_type == MessageType::Sync,
        msg.body == (Body::Sync { origin }),
        msg.header.flags.two_step,
        received(v, msg, rx, now, after, event),
        v.pending_sync.len() < 8,
    ensures
        event is None,
        after.last_sync == v.last_sync,
        after.pending_sync.contains_key(msg.header.sequence_id),
        after.pending_sync[msg.header.sequence_id] == rx,
        forall|q: u16|
            q != msg.header.sequence_id ==> (#[trigger] after.pending_sync.contains_key(q)
                <==> v.pending_sync.contains_key(q)) && (v.pending_sync.contains_key(q) ==> after.pending_sync[q]
                == v.pending_sync[q]),
        v.stats.syncs < u64::MAX ==> after.stats.syncs == v.stats.syncs + 1,
        after.stats.unmatched == v.stats.unmatched,
        after.servo == v.servo,
{
    let grown = v.pending_sync.insert(msg.header.sequence_id, rx);
    assert(grown.len() <= v.pending_sync.len() + 1);
}

proof fn lemma_smallest(m: Map<u16, Timestamp>, q: u16)
    requires
        m.contains_key(q),
    ensures
        is_smallest(m, smallest(m)),
    decreases q,
{
    if exists|k: u16| #[trigger] m.contains_key(k) && k < q {
        let k = choose|k: u16| #[trigger] m.contains_key(k) && k < q;
        lemma_smallest(m, k);
    } else {
        assert(is_smallest(m, q));
    }
}

/// No more than eight Syncs wait. With eight waiting, a ninth takes the place of the one of the
/// nine with the smallest sequence id, and that one is counted as unmatched.
pub proof fn law_a_ninth_sync_drops_the_smallest<S: Sample>(
    v: SlaveView<S>,
    msg: Message,
    origin: Timestamp,
    rx: Timestamp,
    now: u64,
    after: SlaveView<S>,
    event: Option<Event>,
) -> (gone: u16)
    requires
        v.well_formed(),
        from_master(v, msg),
        msg.header.message_type == MessageType::Sync,
        msg.body == (Body::Sync { origin }),
        msg.header.flags.two_step,
        received(v, msg, rx, now, after, event),
        v.pending_sync.dom().finite(),
        v.pending_sync.len() == 8,
    ensures
        event is None,
        after.last_sync == v.last_sync,
        v.pending_sync.contains_key(msg.header.sequence_id) ==> {
            &&& after.pending_sync == v.pending_sync.insert(msg.header.sequence_id, rx)
            &&& after.stats.unmatched == v.stats.unmatched
        },
        !v.pending_sync.contains_key(msg.header.sequence_id) ==> {
            let grown = v.pending_sync.insert(msg.header.sequence_id, rx);
            &&& grown.contains_key(gone)
            &&& forall|q: u16| #[trigger] grown.contains_key(q) ==> gone <= q
            &&& after.pending_sync == grown.remove(gone)
            &&& v.stats.unmatched < u64::MAX ==> after.stats.unmatched == v.stats.unmatched + 1
        },
{
    let grown = v.pending_sync.insert(msg.header.sequence_id, rx);
    assert(grown.contains_key(msg.header.sequence_id));
    lemma_smallest(grown, msg.header.sequence_id);
    if v.pending_sync.contains_key(msg.header.sequence_id) {
        assert(grown.dom() =~= v.pending_sync.dom());
    }
    smallest(grown)
}

/// Each message of our master changes what it is about and nothing else: a Sync or a Follow_Up
/// the pairing, a Delay_Resp the measurement and the servo, and each its own count and that of
/// what was not matched.
pub proof fn law_messages_keep_to_their_part<S: Sample>(
    v: SlaveView<S>,
    msg: Message,
    rx: Timestamp,
    now: u64,
    after: SlaveView<S>,
    event: Option<Event>,
)
    requires
        from_master(v, msg),
        received(v, msg, rx, now, after, event),
    ensures
        msg.body is Sync ==> after == (SlaveView {
            pending_sync: after.pending_sync,
            last_sync: after.last_sync,
            stats: SlaveStats { syncs: after.stats.syncs, unmatched: after.stats.unmatched, ..v.stats },
            ..v
        }),
        msg.body is FollowUp ==> after == (SlaveView {
            pending_sync: after.pending_sync,
            last_sync: after.last_sync,
            stats: SlaveStats { follow_ups: after.stats.follow_ups, unmatched: after.stats.unmatched, ..v.stats },
            ..v
        }),
        msg.body is DelayResp ==> after == (SlaveView {
            pending_delay: after.pending_delay,
            last_measurement: after.last_measurement,
            servo: after.servo,
            stats: SlaveStats { delay_resps: after.stats.delay_resps, unmatched: after.stats.unmatched, ..v.stats },
            ..v
        }),
{
}

/// A Follow_Up of our master pairs its transmit time with the arrival of the Sync of its own
/// sequence id; that Sync, and any older, wait no more. One that matches no Sync pairs nothing.
pub proof fn law_follow_up_completes_its_sync<S: Sample>(
    v: SlaveView<S>,
    msg: Message,
    origin: Timestamp,
    rx: Timestamp,
    now: u64,
    after: SlaveView<S>,
    event: Option<Event>,
)
    requires
        from_master(v, msg),
        msg.body == (Body::FollowUp { precise_origin: origin }),
        received(v, msg, rx, now, after, event),
    ensures
        event is None,
        after.servo == v.servo,
        v.stats.follow_ups < u64::MAX ==> after.stats.follow_ups == v.stats.follow_ups + 1,
        v.pending_sync.contains_key(msg.header.sequence_id) ==> {
            &&& after.last_sync matches Some(s)
            &&& s.t1 == origin
            &&& s.t2 == v.pending_sync[msg.header.sequence_id]
            &&& s.correction_nanos == reported(msg.header)
            &&& !after.pending_sync.contains_key(msg.header.sequence_id)
            &&& after.stats.unmatched == v.stats.unmatched
        },
        !v.pending_sync.contains_key(msg.header.sequence_id) ==> {
            &&& after.last_sync == v.last_sync
            &&& after.pending_sync == v.pending_sync
            &&& v.stats.unmatched < u64::MAX ==> after.stats.unmatched == v.stats.unmatched + 1
        },
        forall|q: u16|
            #![trigger after.pending_sync.contains_key(q)]
            v.pending_sync.contains_key(msg.header.sequence_id) ==> (after.pending_sync.contains_key(q)
                <==> v.pending_sync.contains_key(q) && 0 < (q - msg.header.sequence_id) % 0x1_0000 <= 0x8000),
{
    assert forall|q: u16|
        #![trigger after.pending_sync.contains_key(q)]
        v.pending_sync.contains_key(msg.header.sequence_id) implies (after.pending_sync.contains_key(q)
        <==> v.pending_sync.contains_key(q) && 0 < (q - msg.header.sequence_id) % 0x1_0000 <= 0x8000) by {
        let s = msg.header.sequence_id;
        if q != s {
            assert((s - q) % 0x1_0000 + (q - s) % 0x1_0000 == 0x1_0000);
        }
    }
}

// Delay.

/// The answer to our own Delay_Req completes a measurement of the Sync pairing that is there: on
/// a symmetric path it is the local clock's error and the one-way delay, and that error is what
/// the servo is given.
pub proof fn law_answer_completes_a_measurement<S: Sample>(
    v: SlaveView<S>,
    msg: Message,
    receive: Timestamp,
    sync: SyncSample,
    t3: Timestamp,
    rx: Timestamp,
    now: u64,
    after: SlaveView<S>,
    event: Option<Event>,
    o: int,
    d: int,
)
    requires
        from_master(v, msg),
        msg.body == (Body::DelayResp { receive, requesting: v.identity }),
        v.last_sync == Some(sync),
        v.pending_delay == Some((msg.header.sequence_id, t3)),
        received(v, msg, rx, now, after, event),
        flat(sync.t2) == flat(sync.t1) + d + sync.correction_nanos + o,
        flat(receive) == flat(t3) + d + reported(msg.header) - o,
        i64::MIN <= flat(sync.t2) - flat(sync.t1) <= i64::MAX,
        i64::MIN <= flat(receive) - flat(t3) <= i64::MAX,
        i64::MIN <= o <= i64::MAX,
        i64::MIN <= d <= i64::MAX,
    ensures
        after.last_measurement == Some(Measurement { offset_nanos: o as i64, delay_nanos: d as i64 }),
        updated(v.servo, o, after.servo),
        event == Some(Event::Measured(after.servo.state)),
        after.pending_delay is None,
        after.last_sync == v.last_sync,
        after.master == v.master,
        v.stats.delay_resps < u64::MAX ==> after.stats.delay_resps == v.stats.delay_resps + 1,
        after.stats.unmatched == v.stats.unmatched,
{
}

/// A Delay_Resp that answers nothing of ours is counted and measures nothing, and one for which
/// there is no Sync to combine it with ends the wait for it.
pub proof fn law_unmatched_answers_measure_nothing<S: Sample>(
    v: SlaveView<S>,
    msg: Message,
    receive: Timestamp,
    rx: Timestamp,
    now: u64,
    after: SlaveView<S>,
    event: Option<Event>,
)
    requires
        from_master(v, msg),
        msg.body == (Body::DelayResp { receive, requesting: v.identity }),
        received(v, msg, rx, now, after, event),
        v.last_sync is None || !(v.pending_delay matches Some((seq, _)) && seq == msg.header.sequence_id),
    ensures
        event is None,
        after.servo == v.servo,
        after.last_measurement == v.last_measurement,
        v.stats.unmatched < u64::MAX ==> after.stats.unmatched == v.stats.unmatched + 1,
        v.pending_delay matches Some((seq, _)) && seq == msg.header.sequence_id ==> after.pending_delay is None,
        !(v.pending_delay matches Some((seq, _)) && seq == msg.header.sequence_id) ==> after.pending_delay
            == v.pending_delay,
{
}

/// Messages that a slave has no use for change nothing at all.
pub proof fn law_other_messages_do_nothing<S: Sample>(
    v: SlaveView<S>,
    msg: Message,
    rx: Timestamp,
    now: u64,
    after: SlaveView<S>,
    event: Option<Event>,
)
    requires
        msg.header.domain == v.domain,
        received(v, msg, rx, now, after, event),
        msg.body is Other || msg.body is DelayReq || (!(msg.body is Announce) && !(v.master matches Some(m) && m.sender
            == msg.header.source)),
    ensures
        after == v,
        event is None,
{
}

/// What another domain sends is counted, and changes nothing else.
pub proof fn law_other_domains_change_nothing<S: Sample>(
    v: SlaveView<S>,
    msg: Message,
    rx: Timestamp,
    now: u64,
    after: SlaveView<S>,
    event: Option<Event>,
)
    requires
        msg.header.domain != v.domain,
        received(v, msg, rx, now, after, event),
    ensures
        event is None,
        after == (SlaveView { stats: after.stats, ..v }),
        v.stats.wrong_domain < u64::MAX ==> after.stats.wrong_domain == v.stats.wrong_domain + 1,
        after.stats.unmatched == v.stats.unmatched,
        after.stats.announces == v.stats.announces,
        after.stats.syncs == v.stats.syncs,
        after.stats.follow_ups == v.stats.follow_ups,
        after.stats.delay_resps == v.stats.delay_resps,
{
}

/// An Announce, or time that passes, changes which masters are known and which is followed. Where
/// that changes the master, nothing in flight is kept; where it does not, everything is.
pub proof fn law_selection_keeps_to_its_part<S: Sample>(
    v: SlaveView<S>,
    msg: Message,
    rx: Timestamp,
    now: u64,
    heard: SlaveView<S>,
    announced: Option<Event>,
    later: SlaveView<S>,
    elapsed: Option<Event>,
)
    requires
        msg.header.domain == v.domain,
        msg.body is Announce,
        received(v, msg, rx, now, heard, announced),
        ticked(v, now, later, elapsed),
    ensures
        heard.identity == v.identity && later.identity == v.identity,
        heard.domain == v.domain && later.domain == v.domain,
        heard.servo == v.servo && later.servo == v.servo,
        heard.last_measurement == v.last_measurement && later.last_measurement == v.last_measurement,
        heard.stats == (SlaveStats { announces: heard.stats.announces, ..v.stats }),
        v.stats.announces < u64::MAX ==> heard.stats.announces == v.stats.announces + 1,
        later.stats == v.stats,
        announced is None ==> heard.pending_sync == v.pending_sync && heard.last_sync == v.last_sync
            && heard.pending_delay == v.pending_delay,
        elapsed is None ==> later.pending_sync == v.pending_sync && later.last_sync == v.last_sync
            && later.pending_delay == v.pending_delay,
        announced is Some ==> announced == Some(Event::MasterChanged) && heard.pending_sync == Map::<
            u16,
            Timestamp,
        >::empty() && heard.last_sync is None && heard.pending_delay is None,
        elapsed is Some ==> elapsed == Some(Event::MasterChanged) && later.pending_sync == Map::<
            u16,
            Timestamp,
        >::empty() && later.last_sync is None && later.pending_delay is None,
{
}

/// What a slave reports is what it holds, and it may ask for the path delay once it follows a
/// master and has paired a Sync.
pub proof fn law_slave_reports_what_it_holds<S: Sample>(
    s: SlaveState<S>,
    servo: &Servo<S>,
    master: Option<MasterDataset>,
    stats: SlaveStats,
    last: Option<Measurement>,
    identity: PortIdentity,
    domain: u8,
    seen: usize,
    ready: bool,
)
    requires
        call_ensures(SlaveState::<S>::servo, (&s,), servo),
        call_ensures(SlaveState::<S>::master, (&s,), master),
        call_ensures(SlaveState::<S>::stats, (&s,), stats),
        call_ensures(SlaveState::<S>::last_measurement, (&s,), last),
        call_ensures(SlaveState::<S>::identity, (&s,), identity),
        call_ensures(SlaveState::<S>::domain, (&s,), domain),
        call_ensures(SlaveState::<S>::masters_seen, (&s,), seen),
        call_ensures(SlaveState::<S>::ready_for_delay_req, (&s,), ready),
    ensures
        servo@ == s@.servo,
        master == s@.master,
        stats == s@.stats,
        last == s@.last_measurement,
        identity == s@.identity,
        domain == s@.domain,
        seen == s@.masters.len(),
        ready <==> s@.master is Some && s@.last_sync is Some,
{
}

} // verus!
