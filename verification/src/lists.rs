//! Where the items of a filtered list come from.

use vstd::prelude::*;

verus! {

/// A filtered list is the items that pass, each once, in the order in which they stand.
pub proof fn lemma_filter_positions<T>(s: Seq<T>, keep: spec_fn(T) -> bool) -> (at: Seq<int>)
    ensures
        at.len() == s.filter(keep).len(),
        forall|i: int|
            0 <= i < at.len() ==> 0 <= #[trigger] at[i] < s.len() && s[at[i]] == s.filter(keep)[i] && keep(s[at[i]]),
        forall|i: int, j: int| 0 <= i < j < at.len() ==> #[trigger] at[i] < #[trigger] at[j],
        forall|k: int| 0 <= k < s.len() && keep(#[trigger] s[k]) ==> at.contains(k),
    decreases s.len(),
{
    reveal(Seq::filter);
    if s.len() == 0 {
        Seq::empty()
    } else {
        let rest = s.drop_last();
        let n = rest.len() as int;
        let before = lemma_filter_positions(rest, keep);
        let at = if keep(s[n]) {
            before.push(n)
        } else {
            before
        };
        assert forall|i: int| 0 <= i < at.len() implies 0 <= #[trigger] at[i] < s.len() && s[at[i]] == s.filter(keep)[i]
            && keep(s[at[i]]) by {
            if i < before.len() {
                assert(at[i] == before[i]);
                assert(rest[before[i]] == s[before[i]]);
            }
        }
        assert forall|k: int| 0 <= k < s.len() && keep(#[trigger] s[k]) implies at.contains(k) by {
            if k < n {
                assert(rest[k] == s[k]);
                let i = choose|i: int| 0 <= i < before.len() && before[i] == k;
                assert(at[i] == k);
            } else {
                assert(at[at.len() - 1] == k);
            }
        }
        at
    }
}

} // verus!
