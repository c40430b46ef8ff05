//! Syncs that wait for their Follow_Ups.

use std::collections::BTreeMap;

use vstd::prelude::*;
use vstd::std_specs::iter::IteratorSpec;

use crate::ptp::message::Timestamp;

verus! {

broadcast use {vstd::std_specs::btree::group_btree_axioms, vstd::laws_cmp::group_laws_cmp};

/// The keys of a map.
fn key_list(m: &BTreeMap<u16, Timestamp>) -> (r: Vec<u16>)
    ensures
        forall|q: u16| #[trigger] m@.contains_key(q) <==> r@.contains(q),
{
    let mut out: Vec<u16> = Vec::new();
    let ghost keys = vstd::std_specs::btree::spec_keys_iter(m).remaining();
    for k in it: m.keys()
        invariant
            it.seq() == keys,
            out@ == keys.unref().take(it.index() as int),
    {
        out.push(*k);
    }
    proof {
        assert(out@ =~= keys.unref());
        assert forall|q: u16| #[trigger] m@.contains_key(q) <==> out@.contains(q) by {
            assert(keys.unref().to_set().contains(q) <==> out@.contains(q));
        }
    }
    out
}

/// How many Syncs may wait for their Follow_Ups.
pub const MAX_PENDING_SYNCS: usize = 8;

/// Whether a sequence id is the smallest that waits.
pub open spec fn is_smallest(m: Map<u16, Timestamp>, q: u16) -> bool {
    m.contains_key(q) && forall|k: u16| #[trigger] m.contains_key(k) ==> q <= k
}

/// The smallest sequence id that waits.
pub open spec fn smallest(m: Map<u16, Timestamp>) -> u16 {
    choose|q: u16| is_smallest(m, q)
}

/// One more Sync waiting. Beyond the limit the one with the smallest sequence id is given
/// up.
pub open spec fn waiting_after(m: Map<u16, Timestamp>, q: u16, at: Timestamp) -> Map<u16, Timestamp> {
    let grown = m.insert(q, at);
    if grown.len() > MAX_PENDING_SYNCS {
        grown.remove(smallest(grown))
    } else {
        grown
    }
}

/// Whether a sequence id comes after another, around the end of the counter.
pub open spec fn is_later(k: u16, than: u16) -> bool {
    (than - k) % 0x1_0000 > 0x7FFF
}

/// What still waits once a Follow_Up has been paired: only later Syncs.
pub open spec fn later_than(m: Map<u16, Timestamp>, q: u16) -> Map<u16, Timestamp> {
    m.restrict(Set::new(|k: u16| is_later(k, q)))
}

/// The smallest of some numbers.
fn least(list: &Vec<u16>) -> (r: u16)
    requires
        list@.len() > 0,
    ensures
        list@.contains(r),
        forall|i: int| 0 <= i < list@.len() ==> r <= #[trigger] list@[i],
{
    let mut r: u16 = list[0];
    let mut i: usize = 1;
    assert(list@[0] == r);
    while i < list.len()
        invariant
            1 <= i <= list@.len(),
            list@.contains(r),
            forall|j: int| 0 <= j < i ==> r <= #[trigger] list@[j],
        decreases list@.len() - i,
    {
        if list[i] < r {
            r = list[i];
            assert(list@[i as int] == r);
        }
        i += 1;
    }
    r
}

/// Lets a Sync wait for its Follow_Up. Returns how many were given up for it.
pub fn wait_for(m: &mut BTreeMap<u16, Timestamp>, q: u16, at: Timestamp) -> (given_up: u64)
    requires
        old(m)@.len() <= MAX_PENDING_SYNCS,
        old(m)@.dom().finite(),
    ensures
        final(m)@ == waiting_after(old(m)@, q, at),
        given_up == (if old(m)@.insert(q, at).len() > MAX_PENDING_SYNCS {
            1int
        } else {
            0
        }),
        final(m)@.len() <= MAX_PENDING_SYNCS,
        final(m)@.dom().finite(),
{
    m.insert(q, at);
    let ghost grown = m@;
    if m.len() > MAX_PENDING_SYNCS {
        let list = key_list(m);
        proof {
            assert(grown.contains_key(q));
            assert(list@.contains(q));
        }
        let first: u16 = least(&list);
        proof {
            assert(grown.contains_key(first));
            assert forall|k: u16| #[trigger] grown.contains_key(k) implies first <= k by {
                assert(list@.contains(k));
                let i = choose|i: int| 0 <= i < list@.len() && list@[i] == k;
                assert(list@[i] == k);
            }
            assert(is_smallest(grown, first));
            let other = smallest(grown);
            assert(is_smallest(grown, other));
            assert(other == first);
        }
        m.remove(&first);
        1
    } else {
        0
    }
}

/// Gives up every Sync that is not later than the one just paired.
pub fn forget_earlier(m: &mut BTreeMap<u16, Timestamp>, q: u16)
    requires
        old(m)@.len() <= MAX_PENDING_SYNCS,
        old(m)@.dom().finite(),
    ensures
        final(m)@ == later_than(old(m)@, q),
        final(m)@.len() <= MAX_PENDING_SYNCS,
        final(m)@.dom().finite(),
{
    let ghost before = m@;
    let list = key_list(m);
    let mut i: usize = 0;
    while i < list.len()
        invariant
            i <= list@.len(),
            forall|k: u16| #[trigger] before.contains_key(k) <==> list@.contains(k),
            m@.dom().finite(),
            m@.len() <= MAX_PENDING_SYNCS,
            forall|k: u16| #[trigger] m@.contains_key(k) ==> before.contains_key(k) && m@[k] == before[k],
            forall|k: u16|
                #[trigger] before.contains_key(k) && is_later(k, q) ==> m@.contains_key(k),
            forall|j: int|
                0 <= j < i ==> (m@.contains_key(#[trigger] list@[j]) ==> is_later(list@[j], q)),
        decreases list@.len() - i,
    {
        let k: u16 = list[i];
        let gap: u16 = q.wrapping_sub(k);
        assert(gap == (q - k) % 0x1_0000);
        if gap <= 0x7FFF {
            m.remove(&k);
        }
        i += 1;
    }
    proof {
        let want = later_than(before, q);
        assert forall|k: u16| #[trigger] m@.contains_key(k) <==> want.contains_key(k) by {
            if m@.contains_key(k) {
                assert(list@.contains(k));
                let j = choose|j: int| 0 <= j < list@.len() && list@[j] == k;
                assert(is_later(list@[j], q));
            }
        }
        assert(m@ =~= want);
    }
}

} // verus!
