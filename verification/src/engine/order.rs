//! The order of streams: endpoint by endpoint, and by slot within each.

use vstd::prelude::*;

use crate::config::model::{EndpointView, KeyView};
use crate::engine::plan::offset;

verus! {

/// How many of the first `n` keys sit in a slot below this one.
pub open spec fn below(keys: Seq<KeyView>, slot: int, n: int) -> int
    decreases n,
{
    if n <= 0 {
        0
    } else {
        below(keys, slot, n - 1) + if keys[n - 1].slot < slot {
            1int
        } else {
            0
        }
    }
}

/// The place of key `k` among the keys of its endpoint in slot order: how many of them sit
/// in smaller slots.
pub open spec fn rank(keys: Seq<KeyView>, k: int) -> int {
    below(keys, keys[k].slot as int, keys.len() as int)
}

/// The stream of key `k` of endpoint `i`.
pub open spec fn stream_of(endpoints: Seq<EndpointView>, i: int, k: int) -> int {
    offset(endpoints, i) + rank(endpoints[i].keys, k)
}

/// Whether no two keys share a slot.
pub open spec fn slots_distinct(keys: Seq<KeyView>) -> bool {
    forall|a: int, b: int| 0 <= a < b < keys.len() ==> (#[trigger] keys[a]).slot != (#[trigger] keys[b]).slot
}

/// Whether one of the first `n` keys sits in the slot.
pub open spec fn slot_taken(keys: Seq<KeyView>, slot: int, n: int) -> bool {
    exists|k: int| 0 <= k < n && (#[trigger] keys[k]).slot == slot
}

pub proof fn lemma_below_bounds(keys: Seq<KeyView>, slot: int, n: int)
    requires
        0 <= n <= keys.len(),
    ensures
        0 <= below(keys, slot, n) <= n,
        slot <= 0 ==> below(keys, slot, n) == 0,
    decreases n,
{
    if n > 0 {
        lemma_below_bounds(keys, slot, n - 1);
    }
}

/// Each slot adds the one key that sits in it.
pub proof fn lemma_below_step(keys: Seq<KeyView>, slot: int, n: int)
    requires
        slots_distinct(keys),
        0 <= n <= keys.len(),
    ensures
        below(keys, slot + 1, n) == below(keys, slot, n) + if slot_taken(keys, slot, n) {
            1int
        } else {
            0
        },
    decreases n,
{
    if n > 0 {
        lemma_below_step(keys, slot, n - 1);
        if keys[n - 1].slot == slot {
            assert(slot_taken(keys, slot, n));
            if slot_taken(keys, slot, n - 1) {
                let k = choose|k: int| 0 <= k < n - 1 && (#[trigger] keys[k]).slot == slot;
                assert(keys[k].slot != keys[n - 1].slot);
            }
        } else if slot_taken(keys, slot, n) {
            let k = choose|k: int| 0 <= k < n && (#[trigger] keys[k]).slot == slot;
            assert(slot_taken(keys, slot, n - 1));
        } else if slot_taken(keys, slot, n - 1) {
            let k = choose|k: int| 0 <= k < n - 1 && (#[trigger] keys[k]).slot == slot;
            assert(slot_taken(keys, slot, n));
        }
    }
}

pub proof fn lemma_below_grows(keys: Seq<KeyView>, a: int, b: int, n: int)
    requires
        a <= b,
        0 <= n <= keys.len(),
    ensures
        below(keys, a, n) <= below(keys, b, n),
    decreases n,
{
    if n > 0 {
        lemma_below_grows(keys, a, b, n - 1);
    }
}

/// Every key sits below a slot that is beyond them all.
pub proof fn lemma_below_all(keys: Seq<KeyView>, slot: int, n: int)
    requires
        0 <= n <= keys.len(),
        forall|k: int| 0 <= k < n ==> (#[trigger] keys[k]).slot < slot,
    ensures
        below(keys, slot, n) == n,
    decreases n,
{
    if n > 0 {
        lemma_below_all(keys, slot, n - 1);
    }
}

/// Ranks are the positions from zero on.
pub proof fn lemma_rank_inside(keys: Seq<KeyView>, k: int)
    requires
        slots_distinct(keys),
        0 <= k < keys.len(),
    ensures
        0 <= rank(keys, k) < keys.len(),
        below(keys, keys[k].slot + 1, keys.len() as int) == rank(keys, k) + 1,
{
    let n = keys.len() as int;
    lemma_below_bounds(keys, keys[k].slot as int, n);
    lemma_below_step(keys, keys[k].slot as int, n);
    assert(slot_taken(keys, keys[k].slot as int, n));
    lemma_below_bounds(keys, keys[k].slot + 1, n);
}

/// Ranks go up with slots.
pub proof fn lemma_rank_order(keys: Seq<KeyView>, a: int, b: int)
    requires
        slots_distinct(keys),
        0 <= a < keys.len(),
        0 <= b < keys.len(),
    ensures
        keys[a].slot < keys[b].slot <==> rank(keys, a) < rank(keys, b),
        a != b ==> rank(keys, a) != rank(keys, b),
{
    lemma_rank_inside(keys, a);
    lemma_rank_inside(keys, b);
    let n = keys.len() as int;
    if keys[a].slot < keys[b].slot {
        lemma_below_grows(keys, keys[a].slot + 1, keys[b].slot as int, n);
    } else if keys[b].slot < keys[a].slot {
        lemma_below_grows(keys, keys[b].slot + 1, keys[a].slot as int, n);
    } else if a < b {
        assert(keys[a].slot != keys[b].slot);
    } else if b < a {
        assert(keys[b].slot != keys[a].slot);
    }
}

proof fn lemma_at_rank_below(keys: Seq<KeyView>, slot: int, t: int) -> (k: int)
    requires
        slots_distinct(keys),
        0 <= slot,
        0 <= t < below(keys, slot, keys.len() as int),
    ensures
        0 <= k < keys.len(),
        rank(keys, k) == t,
    decreases slot,
{
    let n = keys.len() as int;
    lemma_below_bounds(keys, slot, n);
    if t < below(keys, slot - 1, n) {
        lemma_below_bounds(keys, slot - 1, n);
        lemma_at_rank_below(keys, slot - 1, t)
    } else {
        lemma_below_step(keys, slot - 1, n);
        choose|k: int| 0 <= k < n && (#[trigger] keys[k]).slot == slot - 1
    }
}

/// Every position is some key's rank.
pub proof fn lemma_at_rank(keys: Seq<KeyView>, t: int) -> (k: int)
    requires
        slots_distinct(keys),
        0 <= t < keys.len(),
    ensures
        0 <= k < keys.len(),
        rank(keys, k) == t,
{
    lemma_below_all(keys, 256, keys.len() as int);
    lemma_at_rank_below(keys, 256, t)
}

} // verus!
