//! The Best Master Clock Algorithm (IEEE 1588-2008 clause 9.3).
//!
//! Every clock on a domain announces itself, everyone runs the same comparison, and they
//! all reach the same answer about who the grandmaster is.

use std::cmp::Ordering;

use vstd::arithmetic::power2::pow2;
use vstd::prelude::*;

use crate::bytes::{be_value, read_be};
use crate::ptp::message::{
    lemma_identity_ext, Announce, ClockIdentity, ClockQuality, Header, PortIdentity,
};

verus! {

/// What a received Announce says about the clock it is advertising.
#[derive(Clone, Copy, Debug, PartialEq, Eq)]
pub struct MasterDataset {
    pub grandmaster: ClockIdentity,
    pub priority1: u8,
    pub quality: ClockQuality,
    pub priority2: u8,
    pub steps_removed: u16,
    /// Which port sent this Announce: the final tie-break.
    pub sender: PortIdentity,
}

impl MasterDataset {
    pub fn from_announce(header: &Header, announce: &Announce) -> (r: Self)
        ensures
            r == (MasterDataset {
                grandmaster: announce.grandmaster_identity,
                priority1: announce.grandmaster_priority1,
                quality: announce.grandmaster_quality,
                priority2: announce.grandmaster_priority2,
                steps_removed: announce.steps_removed,
                sender: header.source,
            }),
    {
        MasterDataset {
            grandmaster: announce.grandmaster_identity,
            priority1: announce.grandmaster_priority1,
            quality: announce.grandmaster_quality,
            priority2: announce.grandmaster_priority2,
            steps_removed: announce.steps_removed,
            sender: header.source,
        }
    }

    /// How the clock itself ranks: priority1, class, accuracy, variance, priority2 and
    /// identity. Lower is better.
    pub open spec fn clock_rank(self) -> Seq<nat> {
        seq![
            self.priority1 as nat,
            self.quality.class as nat,
            self.quality.accuracy as nat,
            self.quality.offset_scaled_log_variance as nat,
            self.priority2 as nat,
            be_value(self.grandmaster@),
        ]
    }

    /// How the path to the clock ranks: steps removed, then the sender. Lower is better.
    pub open spec fn path_rank(self) -> Seq<nat> {
        seq![self.steps_removed as nat, be_value(self.sender.clock@), self.sender.port as nat]
    }
}

/// The first difference decides.
pub open spec fn rank_before(a: Seq<nat>, b: Seq<nat>) -> bool
    decreases a.len(),
{
    if a.len() == 0 || b.len() == 0 {
        a.len() < b.len()
    } else if a[0] != b[0] {
        a[0] < b[0]
    } else {
        rank_before(a.drop_first(), b.drop_first())
    }
}

/// Whether `a` is the better master. Two paths to one grandmaster rank by path, two
/// grandmasters by clock.
pub open spec fn better(a: MasterDataset, b: MasterDataset) -> bool {
    if a.grandmaster == b.grandmaster {
        rank_before(a.path_rank(), b.path_rank())
    } else {
        rank_before(a.clock_rank(), b.clock_rank())
    }
}

/// Whether neither is better.
pub open spec fn tied(a: MasterDataset, b: MasterDataset) -> bool {
    a.grandmaster == b.grandmaster && a.path_rank() == b.path_rank()
}

/// Whether the rank comes first, ranks of six.
proof fn lemma_rank_six(a: Seq<nat>, b: Seq<nat>)
    requires
        a.len() == 6,
        b.len() == 6,
    ensures
        rank_before(a, b) == (a[0] < b[0] || (a[0] == b[0] && (a[1] < b[1] || (a[1] == b[1] && (a[2] < b[2] || (
        a[2] == b[2] && (a[3] < b[3] || (a[3] == b[3] && (a[4] < b[4] || (a[4] == b[4] && a[5] < b[5])))))))))),
{
    reveal_with_fuel(rank_before, 7);
}

proof fn lemma_rank_three(a: Seq<nat>, b: Seq<nat>)
    requires
        a.len() == 3,
        b.len() == 3,
    ensures
        rank_before(a, b) == (a[0] < b[0] || (a[0] == b[0] && (a[1] < b[1] || (a[1] == b[1] && a[2] < b[2])))),
{
    reveal_with_fuel(rank_before, 4);
}

/// The number that the bytes of an identity spell.
fn number_of(id: &ClockIdentity) -> (r: u64)
    ensures
        r == be_value(id@),
{
    let r: u64 = read_be(&id.0, 0, 8);
    assert(id@.subrange(0, 8) =~= id@);
    r
}

/// Different identities are different numbers.
proof fn lemma_be_value_injective(a: Seq<u8>, b: Seq<u8>)
    requires
        a.len() == b.len(),
        be_value(a) == be_value(b),
    ensures
        a == b,
    decreases a.len(),
{
    if a.len() > 0 {
        lemma_be_value_injective(a.drop_last(), b.drop_last());
        assert(a =~= a.drop_last().push(a.last()));
        assert(b =~= b.drop_last().push(b.last()));
    } else {
        assert(a =~= b);
    }
}

proof fn lemma_numbers_apart(a: ClockIdentity, b: ClockIdentity)
    requires
        a != b,
    ensures
        be_value(a@) != be_value(b@),
{
    if be_value(a@) == be_value(b@) {
        lemma_be_value_injective(a@, b@);
        lemma_identity_ext(a, b);
    }
}

/// Orders two numbers.
fn order(a: u64, b: u64) -> (r: Ordering)
    ensures
        r == Ordering::Less <==> a < b,
        r == Ordering::Equal <==> a == b,
        r == Ordering::Greater <==> a > b,
{
    if a < b {
        Ordering::Less
    } else if a == b {
        Ordering::Equal
    } else {
        Ordering::Greater
    }
}

/// The first order, unless it is a tie.
fn or_else(first: Ordering, second: Ordering) -> (r: Ordering)
    ensures
        r == (if first == Ordering::Equal {
            second
        } else {
            first
        }),
{
    match first {
        Ordering::Equal => second,
        Ordering::Less => Ordering::Less,
        Ordering::Greater => Ordering::Greater,
    }
}

/// Widens the fields that decide, so that they can be ordered.
fn clock_numbers(d: &MasterDataset) -> (r: (u64, u64, u64, u64, u64, u64))
    ensures
        d.clock_rank() == seq![r.0 as nat, r.1 as nat, r.2 as nat, r.3 as nat, r.4 as nat, r.5 as nat],
{
    (
        d.priority1 as u64,
        d.quality.class as u64,
        d.quality.accuracy as u64,
        d.quality.offset_scaled_log_variance as u64,
        d.priority2 as u64,
        number_of(&d.grandmaster),
    )
}

fn path_numbers(d: &MasterDataset) -> (r: (u64, u64, u64))
    ensures
        d.path_rank() == seq![r.0 as nat, r.1 as nat, r.2 as nat],
{
    (d.steps_removed as u64, number_of(&d.sender.clock), d.sender.port as u64)
}

/// Compare two candidates. `Less` means `a` is the better master.
///
/// The order is fixed by the standard. `priority1` above every measure of quality is the
/// operator's override.
pub fn compare(a: &MasterDataset, b: &MasterDataset) -> (r: Ordering)
    ensures
        r == Ordering::Less <==> better(*a, *b),
        r == Ordering::Equal <==> tied(*a, *b),
        r == Ordering::Greater <==> better(*b, *a),
{
    if a.grandmaster.same(&b.grandmaster) {
        let x = path_numbers(a);
        let y = path_numbers(b);
        proof {
            lemma_rank_three(a.path_rank(), b.path_rank());
            lemma_rank_three(b.path_rank(), a.path_rank());
            if x == y {
                assert(a.path_rank() =~= b.path_rank());
            } else {
                assert(a.path_rank()[0] == x.0 && a.path_rank()[1] == x.1 && a.path_rank()[2] == x.2);
                assert(b.path_rank()[0] == y.0 && b.path_rank()[1] == y.1 && b.path_rank()[2] == y.2);
            }
        }
        return or_else(order(x.0, y.0), or_else(order(x.1, y.1), order(x.2, y.2)));
    }
    let x = clock_numbers(a);
    let y = clock_numbers(b);
    proof {
        lemma_numbers_apart(a.grandmaster, b.grandmaster);
        lemma_rank_six(a.clock_rank(), b.clock_rank());
        lemma_rank_six(b.clock_rank(), a.clock_rank());
        assert(a.clock_rank()[5] == x.5 && b.clock_rank()[5] == y.5);
    }
    or_else(
        order(x.0, y.0),
        or_else(
            order(x.1, y.1),
            or_else(order(x.2, y.2), or_else(order(x.3, y.3), or_else(order(x.4, y.4), order(x.5, y.5)))),
        ),
    )
}

// The comparison as an order.

/// Datasets that name the same grandmaster say the same about it.
pub open spec fn agreed(a: MasterDataset, b: MasterDataset) -> bool {
    a.grandmaster == b.grandmaster ==> a.priority1 == b.priority1 && a.quality == b.quality && a.priority2
        == b.priority2
}

/// Of two candidates exactly one is better, or they are the same path to the same clock.
pub proof fn law_comparison_decides(a: MasterDataset, b: MasterDataset)
    ensures
        better(a, b) || better(b, a) || tied(a, b),
        !(better(a, b) && better(b, a)),
        tied(a, b) ==> !better(a, b) && !better(b, a) && a.sender == b.sender,
{
    if a.grandmaster == b.grandmaster {
        lemma_rank_three(a.path_rank(), b.path_rank());
        lemma_rank_three(b.path_rank(), a.path_rank());
        let p = a.path_rank();
        let q = b.path_rank();
        if p[0] == q[0] && p[1] == q[1] && p[2] == q[2] {
            assert(p =~= q);
            if a.sender.clock != b.sender.clock {
                lemma_numbers_apart(a.sender.clock, b.sender.clock);
            }
        }
        if p == q {
            assert(p[1] == q[1] && p[2] == q[2]);
            if a.sender.clock != b.sender.clock {
                lemma_numbers_apart(a.sender.clock, b.sender.clock);
            }
        }
    } else {
        lemma_numbers_apart(a.grandmaster, b.grandmaster);
        lemma_rank_six(a.clock_rank(), b.clock_rank());
        lemma_rank_six(b.clock_rank(), a.clock_rank());
    }
}

proof fn lemma_agreed_ranks(a: MasterDataset, b: MasterDataset)
    requires
        agreed(a, b),
        a.grandmaster == b.grandmaster,
    ensures
        a.clock_rank() == b.clock_rank(),
{
    assert(a.clock_rank() =~= b.clock_rank());
}

/// Among datasets that agree on what each grandmaster is, better is transitive: the
/// comparison is a total order, so every clock in the domain reaches the same answer.
pub proof fn law_comparison_transitive(a: MasterDataset, b: MasterDataset, c: MasterDataset)
    requires
        agreed(a, b),
        agreed(b, c),
        agreed(a, c),
        better(a, b),
        better(b, c),
    ensures
        better(a, c),
{
    lemma_rank_six(a.clock_rank(), b.clock_rank());
    lemma_rank_six(b.clock_rank(), c.clock_rank());
    lemma_rank_six(a.clock_rank(), c.clock_rank());
    lemma_rank_three(a.path_rank(), b.path_rank());
    lemma_rank_three(b.path_rank(), c.path_rank());
    lemma_rank_three(a.path_rank(), c.path_rank());
    if a.grandmaster == b.grandmaster {
        lemma_agreed_ranks(a, b);
    }
    if b.grandmaster == c.grandmaster {
        lemma_agreed_ranks(b, c);
    }
    if a.grandmaster == c.grandmaster {
        lemma_agreed_ranks(a, c);
    }
    if a.grandmaster != b.grandmaster {
        lemma_numbers_apart(a.grandmaster, b.grandmaster);
    }
    if b.grandmaster != c.grandmaster {
        lemma_numbers_apart(b.grandmaster, c.grandmaster);
    }
}

// Intervals.

/// `n / d` to the nearest whole number, ties to even.
pub open spec fn half_even(n: nat, d: nat) -> nat {
    let q = n / d;
    let r = n % d;
    if 2 * r < d || (2 * r == d && q % 2 == 0) {
        q
    } else {
        q + 1
    }
}

/// The nanoseconds of an interval given as a power of two seconds, capped at 2^16.
pub open spec fn interval_nanos(log_interval: int) -> nat {
    if log_interval > 16 {
        pow2(16) * 1_000_000_000
    } else if log_interval >= 0 {
        pow2(log_interval as nat) * 1_000_000_000
    } else {
        half_even(1_000_000_000, pow2((-log_interval) as nat))
    }
}

/// Two to the power of `k`.
fn power_of_two(k: u32) -> (r: u64)
    requires
        k <= 32,
    ensures
        r == pow2(k as nat),
        r <= 0x1_0000_0000,
    decreases k,
{
    proof {
        vstd::arithmetic::power2::lemma2_to64();
        if k > 0 {
            vstd::arithmetic::power2::lemma_pow2_unfold(k as nat);
        }
    }
    if k == 0 {
        1
    } else {
        let half: u64 = power_of_two(k - 1);
        proof {
            if k - 1 < 32 {
                vstd::arithmetic::power2::lemma_pow2_strictly_increases((k - 1) as nat, 32);
            }
        }
        2 * half
    }
}

/// PTP expresses intervals as a signed power of two seconds. In nanoseconds.
pub fn log_interval_to_duration(log_interval: i8) -> (r: u64)
    ensures
        r == interval_nanos(log_interval as int),
        r <= 65_536_000_000_000,
{
    proof {
        vstd::arithmetic::power2::lemma2_to64();
    }
    if log_interval >= 0 {
        let k: u32 = if log_interval > 16 {
            16
        } else {
            log_interval as u32
        };
        let p: u64 = power_of_two(k);
        proof {
            if k < 16 {
                vstd::arithmetic::power2::lemma_pow2_strictly_increases(k as nat, 16);
            }
        }
        p * 1_000_000_000
    } else {
        let k: u32 = (-(log_interval as i32)) as u32;
        if k > 32 {
            proof {
                vstd::arithmetic::power2::lemma_pow2_strictly_increases(32, k as nat);
                let d = pow2(k as nat);
                vstd::arithmetic::div_mod::lemma_small_mod(1_000_000_000, d);
                vstd::arithmetic::div_mod::lemma_basic_div(1_000_000_000, d as int);
            }
            return 0;
        }
        let d: u64 = power_of_two(k);
        proof {
            vstd::arithmetic::power2::lemma_pow2_pos(k as nat);
        }
        let q: u64 = 1_000_000_000 / d;
        let r: u64 = 1_000_000_000 % d;
        proof {
            assert(q <= 1_000_000_000) by (nonlinear_arith)
                requires
                    d >= 1,
                    q == 1_000_000_000u64 / d,
            ;
        }
        if 2 * r < d || (2 * r == d && q % 2 == 0) {
            q
        } else {
            q + 1
        }
    }
}

// The masters.

/// How many announce intervals of silence before a master is written off.
pub const RECEIPT_TIMEOUT_MULTIPLIER: u64 = 3;

/// A master that has announced itself. Times are nanoseconds on a monotonic clock.
#[derive(Clone, Copy)]
pub struct Candidate {
    pub dataset: MasterDataset,
    pub last_seen: u64,
    pub timeout: u64,
}

/// Whether a master has been heard from recently enough.
pub open spec fn alive(now: u64) -> spec_fn(Candidate) -> bool {
    |t: Candidate| now - t.last_seen < t.timeout && 0 < t.timeout
}

/// Collects Announces and decides which master to follow.
pub struct BestMaster {
    seen: Vec<Candidate>,
}

impl View for BestMaster {
    type V = Seq<Candidate>;

    closed spec fn view(&self) -> Seq<Candidate> {
        self.seen@
    }
}

/// Each sender is tracked once.
pub open spec fn senders_distinct(s: Seq<Candidate>) -> bool {
    forall|i: int, j: int|
        #![trigger s[i], s[j]]
        0 <= i < j < s.len() ==> s[i].dataset.sender != s[j].dataset.sender
}

/// The position of a sender, from `from` on.
pub open spec fn sender_position(s: Seq<Candidate>, sender: PortIdentity, from: int) -> Option<int>
    decreases s.len() - from,
{
    if from < 0 || from >= s.len() {
        None
    } else if s[from].dataset.sender == sender {
        Some(from)
    } else {
        sender_position(s, sender, from + 1)
    }
}

proof fn lemma_sender_position(s: Seq<Candidate>, sender: PortIdentity, from: int)
    requires
        0 <= from,
    ensures
        match sender_position(s, sender, from) {
            Some(i) => from <= i < s.len() && s[i].dataset.sender == sender,
            None => forall|j: int| from <= j < s.len() ==> (#[trigger] s[j]).dataset.sender != sender,
        },
    decreases s.len() - from,
{
    if from < s.len() && s[from].dataset.sender != sender {
        lemma_sender_position(s, sender, from + 1);
    }
}

/// The masters after one has announced itself: its latest word in place of the last.
pub open spec fn observed(s: Seq<Candidate>, t: Candidate) -> Seq<Candidate> {
    match sender_position(s, t.dataset.sender, 0) {
        Some(i) => s.update(i, t),
        None => s.push(t),
    }
}

/// The best of the first `n`, an earlier one winning a tie.
pub open spec fn best_of(s: Seq<Candidate>, n: int) -> MasterDataset
    decreases n,
{
    if n <= 1 {
        s[0].dataset
    } else if better(s[n - 1].dataset, best_of(s, n - 1)) {
        s[n - 1].dataset
    } else {
        best_of(s, n - 1)
    }
}

/// The best of all.
pub open spec fn best_known(s: Seq<Candidate>) -> MasterDataset {
    best_of(s, s.len() as int)
}

impl Default for BestMaster {
    fn default() -> (r: Self)
        ensures
            r@ == Seq::<Candidate>::empty(),
            r.wf(),
    {
        BestMaster::new()
    }
}

impl BestMaster {
    /// Each sender is tracked once.
    pub open spec fn wf(&self) -> bool {
        senders_distinct(self@)
    }

    pub fn new() -> (r: Self)
        ensures
            r@ == Seq::<Candidate>::empty(),
            r.wf(),
    {
        BestMaster { seen: Vec::new() }
    }

    /// Record an Announce. `log_interval` is the header's `logMessageInterval`.
    pub fn observe(&mut self, dataset: MasterDataset, log_interval: i8, now: u64)
        requires
            old(self).wf(),
        ensures
            final(self).wf(),
            final(self)@ == observed(
                old(self)@,
                Candidate {
                    dataset,
                    last_seen: now,
                    timeout: (interval_nanos(log_interval as int) * RECEIPT_TIMEOUT_MULTIPLIER) as u64,
                },
            ),
    {
        let interval: u64 = log_interval_to_duration(log_interval);
        let t = Candidate { dataset, last_seen: now, timeout: interval * RECEIPT_TIMEOUT_MULTIPLIER };
        let mut i: usize = 0;
        proof {
            lemma_sender_position(self@, dataset.sender, 0);
        }
        while i < self.seen.len()
            invariant
                i <= self.seen@.len(),
                self@ == old(self)@,
                t.dataset == dataset,
                t.last_seen == now,
                t.timeout == interval_nanos(log_interval as int) * RECEIPT_TIMEOUT_MULTIPLIER,
                senders_distinct(self@),
                sender_position(self@, dataset.sender, 0) == sender_position(self@, dataset.sender, i as int),
            decreases self.seen@.len() - i,
        {
            if self.seen[i].dataset.sender.same(&dataset.sender) {
                let ghost before = self.seen@;
                self.seen[i] = t;
                assert(self.seen@ =~= before.update(i as int, t));
                return;
            }
            i += 1;
        }
        self.seen.push(t);
    }

    /// Drop masters that have gone quiet. Returns how many were dropped.
    pub fn expire(&mut self, now: u64) -> (dropped: usize)
        requires
            old(self).wf(),
        ensures
            final(self).wf(),
            final(self)@ == old(self)@.filter(alive(now)),
            dropped == old(self)@.len() - final(self)@.len(),
    {
        let ghost all = self@;
        let before: usize = self.seen.len();
        let mut kept: Vec<Candidate> = Vec::new();
        let mut i: usize = 0;
        proof {
            reveal(Seq::filter);
            assert(all.take(0) =~= Seq::<Candidate>::empty());
        }
        while i < self.seen.len()
            invariant
                i <= self.seen@.len(),
                self@ == all,
                all.len() == self.seen@.len(),
                before == self.seen@.len(),
                senders_distinct(all),
                kept@ == all.take(i as int).filter(alive(now)),
                kept@.len() <= i,
                senders_distinct(kept@),
                forall|j: int| 0 <= j < kept@.len() ==> all.take(i as int).contains(#[trigger] kept@[j]),
            decreases self.seen@.len() - i,
        {
            let t = self.seen[i];
            proof {
                assert(all.take(i + 1) =~= all.take(i as int).push(t));
                all.take(i as int).lemma_filter_push(t, alive(now));
            }
            let ghost earlier = kept@;
            if now.saturating_sub(t.last_seen) < t.timeout {
                kept.push(t);
            }
            proof {
                assert forall|j: int| 0 <= j < kept@.len() implies all.take(i + 1).contains(#[trigger] kept@[j]) by {
                    if j < earlier.len() {
                        assert(all.take(i as int).contains(earlier[j]));
                        let k = choose|k: int| 0 <= k < i && all.take(i as int)[k] == earlier[j];
                        assert(all.take(i + 1)[k] == kept@[j]);
                    } else {
                        assert(all.take(i + 1)[i as int] == kept@[j]);
                    }
                }
                assert forall|a: int, b: int|
                    #![trigger kept@[a], kept@[b]]
                    0 <= a < b < kept@.len() implies kept@[a].dataset.sender != kept@[b].dataset.sender by {
                    if b == earlier.len() {
                        assert(all.take(i as int).contains(earlier[a]));
                        let k = choose|k: int| 0 <= k < i && all.take(i as int)[k] == earlier[a];
                        assert(all[k] == kept@[a]);
                        assert(all[i as int] == kept@[b]);
                    } else {
                        assert(earlier[a] == kept@[a] && earlier[b] == kept@[b]);
                    }
                }
            }
            i += 1;
        }
        assert(all.take(i as int) =~= all);
        let after: usize = kept.len();
        self.seen = kept;
        before - after
    }

    /// The best master currently known.
    pub fn best(&self) -> (r: Option<MasterDataset>)
        ensures
            match r {
                Some(d) => self@.len() > 0 && d == best_known(self@),
                None => self@.len() == 0,
            },
    {
        if self.seen.len() == 0 {
            return None;
        }
        let mut best = self.seen[0].dataset;
        let mut i: usize = 1;
        while i < self.seen.len()
            invariant
                1 <= i <= self.seen@.len(),
                best == best_of(self.seen@, int_of(i)),
            decreases self.seen@.len() - i,
        {
            match compare(&best, &self.seen[i].dataset) {
                Ordering::Greater => {
                    best = self.seen[i].dataset;
                },
                Ordering::Less => {},
                Ordering::Equal => {
                    proof {
                        law_comparison_decides(best, self.seen@[int_of(i)].dataset);
                    }
                },
            }
            proof {
                law_comparison_decides(best_of(self.seen@, int_of(i)), self.seen@[int_of(i)].dataset);
            }
            i += 1;
        }
        Some(best)
    }

    pub fn known_masters(&self) -> (r: usize)
        ensures
            r == self@.len(),
    {
        self.seen.len()
    }
}

/// A position as an integer.
pub open spec fn int_of(i: usize) -> int {
    i as int
}

/// Every pair of masters agrees on what each grandmaster is.
pub open spec fn all_agreed(s: Seq<Candidate>) -> bool {
    forall|i: int, j: int|
        #![trigger s[i], s[j]]
        0 <= i < s.len() && 0 <= j < s.len() ==> agreed(s[i].dataset, s[j].dataset)
}

/// The chosen master is one of those known, and none of the others is better.
pub proof fn law_best_is_best(s: Seq<Candidate>, n: int)
    requires
        1 <= n <= s.len(),
        all_agreed(s),
    ensures
        exists|i: int| 0 <= i < n && #[trigger] s[i].dataset == best_of(s, n),
        forall|i: int| 0 <= i < n ==> !better((#[trigger] s[i]).dataset, best_of(s, n)),
    decreases n,
{
    if n == 1 {
        assert(s[0].dataset == best_of(s, 1));
        law_comparison_decides(s[0].dataset, s[0].dataset);
    } else {
        law_best_is_best(s, n - 1);
        let old = best_of(s, n - 1);
        let new = s[n - 1].dataset;
        let k = choose|k: int| 0 <= k < n - 1 && #[trigger] s[k].dataset == old;
        law_comparison_decides(new, new);
        law_comparison_decides(new, old);
        if better(new, old) {
            assert(s[n - 1].dataset == best_of(s, n));
            assert forall|i: int| 0 <= i < n implies !better((#[trigger] s[i]).dataset, new) by {
                if i < n - 1 && better(s[i].dataset, new) {
                    assert(agreed(s[i].dataset, s[n - 1].dataset));
                    assert(agreed(s[n - 1].dataset, s[k].dataset));
                    assert(agreed(s[i].dataset, s[k].dataset));
                    law_comparison_transitive(s[i].dataset, new, old);
                }
            }
        } else {
            assert(s[k].dataset == best_of(s, n));
        }
    }
}

/// Two clocks that know the same masters, in whatever order they heard of them, choose
/// the same one.
pub proof fn law_everyone_agrees(s: Seq<Candidate>, t: Seq<Candidate>)
    requires
        s.len() > 0,
        t.len() > 0,
        all_agreed(s),
        all_agreed(t),
        senders_distinct(s),
        forall|i: int| 0 <= i < s.len() ==> exists|j: int| 0 <= j < t.len() && t[j].dataset == (#[trigger] s[i]).dataset,
        forall|j: int| 0 <= j < t.len() ==> exists|i: int| 0 <= i < s.len() && s[i].dataset == (#[trigger] t[j]).dataset,
    ensures
        best_known(s) == best_known(t),
{
    let a = best_of(s, s.len() as int);
    let b = best_of(t, t.len() as int);
    law_best_is_best(s, s.len() as int);
    law_best_is_best(t, t.len() as int);
    let i = choose|i: int| 0 <= i < s.len() && #[trigger] s[i].dataset == a;
    let j = choose|j: int| 0 <= j < t.len() && #[trigger] t[j].dataset == b;
    let j2 = choose|j2: int| 0 <= j2 < t.len() && t[j2].dataset == s[i].dataset;
    let i2 = choose|i2: int| 0 <= i2 < s.len() && s[i2].dataset == t[j].dataset;
    assert(!better(t[j2].dataset, b));
    assert(!better(s[i2].dataset, a));
    law_comparison_decides(a, b);
    // Neither is better, so they come from one sender, and each sender is tracked once.
    assert(s[i].dataset.sender == s[i2].dataset.sender);
    if i < i2 {
        assert(false);
    } else if i2 < i {
        assert(false);
    }
}

} // verus!
