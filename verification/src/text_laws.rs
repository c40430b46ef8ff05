//! What decimal text and the order of strings are.

use vstd::prelude::*;

use crate::text::{decimal, order_of, text_before, Order};

verus! {

/// What a digit counts.
pub open spec fn digit(c: char) -> int {
    if c == '0' {
        0
    } else if c == '1' {
        1
    } else if c == '2' {
        2
    } else if c == '3' {
        3
    } else if c == '4' {
        4
    } else if c == '5' {
        5
    } else if c == '6' {
        6
    } else if c == '7' {
        7
    } else if c == '8' {
        8
    } else if c == '9' {
        9
    } else {
        -1
    }
}

/// What a run of decimal digits counts.
pub open spec fn counts(s: Seq<char>) -> int
    decreases s.len(),
{
    if s.len() == 0 {
        0
    } else {
        10 * counts(s.drop_last()) + digit(s.last())
    }
}

/// A number's text is digits alone that count to the number, with no zero in front unless the
/// number is zero.
pub proof fn law_decimal_text_counts_to_its_number(n: nat)
    ensures
        decimal(n).len() > 0,
        counts(decimal(n)) == n,
        forall|i: int| 0 <= i < decimal(n).len() ==> 0 <= digit(#[trigger] decimal(n)[i]) <= 9,
        decimal(n)[0] == '0' <==> n == 0,
        n < 10 <==> decimal(n).len() == 1,
    decreases n,
{
    let s = decimal(n);
    if n < 10 {
        assert(s =~= seq![s[0]]);
        assert(s.drop_last() =~= Seq::<char>::empty());
        assert(counts(s.drop_last()) == 0);
        assert(digit(s.last()) == n);
    } else {
        law_decimal_text_counts_to_its_number(n / 10);
        let t = decimal(n / 10);
        assert(s.drop_last() =~= t);
        assert(digit(s.last()) == n % 10);
        assert(s[0] == t[0]);
        assert forall|i: int| 0 <= i < s.len() implies 0 <= digit(#[trigger] s[i]) <= 9 by {
            if i < t.len() {
                assert(s[i] == t[i]);
            }
        }
    }
}

/// Whether the first `k` characters of two texts agree.
pub open spec fn agree(a: Seq<char>, b: Seq<char>, k: int) -> bool {
    0 <= k <= a.len() && k <= b.len() && forall|i: int| 0 <= i < k ==> a[i] == #[trigger] b[i]
}

/// Whether a text comes first: by the lower character at the first difference, or by ending
/// where the other goes on.
pub open spec fn comes_first(a: Seq<char>, b: Seq<char>) -> bool {
    exists|k: int| #[trigger] agree(a, b, k) && k < b.len() && (k == a.len() || a[k] < b[k])
}

pub proof fn lemma_before(a: Seq<char>, b: Seq<char>)
    ensures
        text_before(a, b) ==> comes_first(a, b),
    decreases a.len(),
{
    if text_before(a, b) {
        if a.len() == 0 || a[0] != b[0] {
            assert(agree(a, b, 0));
        } else {
            let (p, q) = (a.drop_first(), b.drop_first());
            lemma_before(p, q);
            let k = choose|k: int| #[trigger] agree(p, q, k) && k < q.len() && (k == p.len() || p[k] < q[k]);
            assert forall|i: int| 0 <= i < k + 1 implies a[i] == #[trigger] b[i] by {
                if i > 0 {
                    assert(p[i - 1] == q[i - 1]);
                }
            }
            assert(agree(a, b, k + 1));
            if k < p.len() {
                assert(a[k + 1] == p[k] && b[k + 1] == q[k]);
            }
        }
    }
}

/// Of two texts the one with the lower character at the first difference comes first, and a text
/// comes before every longer one that begins with it.
pub proof fn law_texts_are_ordered_by_their_first_difference(a: &str, b: &str, r: Order)
    requires
        call_ensures(order_of, (a, b), r),
    ensures
        r is Same <==> a@ == b@,
        r is Before ==> comes_first(a@, b@),
        r is After ==> comes_first(b@, a@),
{
    lemma_before(a@, b@);
    lemma_before(b@, a@);
}

} // verus!
