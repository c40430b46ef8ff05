//! Taking text apart: lines, words, numbers, addresses.

use vstd::prelude::*;


verus! {

/// Whether a character is white space, by Unicode's `White_Space` property.
pub open spec fn is_space(c: char) -> bool {
    ||| '\u{9}' <= c <= '\u{d}'
    ||| c == ' '
    ||| c == '\u{85}'
    ||| c == '\u{a0}'
    ||| c == '\u{1680}'
    ||| '\u{2000}' <= c <= '\u{200a}'
    ||| c == '\u{2028}'
    ||| c == '\u{2029}'
    ||| c == '\u{202f}'
    ||| c == '\u{205f}'
    ||| c == '\u{3000}'
}

/// Whether a character is white space, by Unicode's `White_Space` property.
pub fn space(c: char) -> (r: bool)
    ensures
        r == is_space(c),
{
    ('\u{9}' <= c && c <= '\u{d}') || c == ' ' || c == '\u{85}' || c == '\u{a0}' || c == '\u{1680}' || (
    '\u{2000}' <= c && c <= '\u{200a}') || c == '\u{2028}' || c == '\u{2029}' || c == '\u{202f}' || c
        == '\u{205f}' || c == '\u{3000}'
}

/// Where a character first occurs, or the length where it does not.
pub open spec fn first_of(s: Seq<char>, c: char) -> int
    decreases s.len(),
{
    if s.len() == 0 || s[0] == c {
        0
    } else {
        1 + first_of(s.skip(1), c)
    }
}

/// Where white space first occurs, or the length where it does not.
pub open spec fn first_space(s: Seq<char>) -> int
    decreases s.len(),
{
    if s.len() == 0 || is_space(s[0]) {
        0
    } else {
        1 + first_space(s.skip(1))
    }
}

/// Where anything but white space first occurs, or the length where it does not.
pub open spec fn first_ink(s: Seq<char>) -> int
    decreases s.len(),
{
    if s.len() == 0 || !is_space(s[0]) {
        0
    } else {
        1 + first_ink(s.skip(1))
    }
}

/// A text taken apart at every occurrence of a character.
pub open spec fn split(s: Seq<char>, c: char) -> Seq<Seq<char>>
    decreases s.len(),
    via split_shrinks
{
    let k = first_of(s, c);
    if k >= s.len() {
        seq![s]
    } else {
        seq![s.take(k)] + split(s.skip(k + 1), c)
    }
}

#[via_fn]
proof fn split_shrinks(s: Seq<char>, c: char) {
    lemma_first_of(s, c);
}

/// The words of a text: what white space keeps apart.
pub open spec fn words(s: Seq<char>) -> Seq<Seq<char>>
    decreases s.len(),
    via words_shrink
{
    let t = s.skip(first_ink(s));
    if t.len() == 0 {
        Seq::empty()
    } else {
        seq![t.take(first_space(t))] + words(t.skip(first_space(t)))
    }
}

#[via_fn]
proof fn words_shrink(s: Seq<char>) {
    lemma_first_ink(s);
    lemma_first_space(s.skip(first_ink(s)));
}

/// A text without the white space at its end.
pub open spec fn trim_end(s: Seq<char>) -> Seq<char>
    decreases s.len(),
{
    if s.len() > 0 && is_space(s.last()) {
        trim_end(s.drop_last())
    } else {
        s
    }
}

/// A text without the white space around it.
pub open spec fn trimmed(s: Seq<char>) -> Seq<char> {
    trim_end(s.skip(first_ink(s)))
}

/// A line without the carriage returns at its end.
pub open spec fn strip_returns(s: Seq<char>) -> Seq<char>
    decreases s.len(),
{
    if s.len() > 0 && s.last() == '\r' {
        strip_returns(s.drop_last())
    } else {
        s
    }
}

/// What follows a prefix, where there is one.
pub open spec fn after(s: Seq<char>, prefix: Seq<char>) -> Option<Seq<char>> {
    if prefix.is_prefix_of(s) {
        Some(s.skip(prefix.len() as int))
    } else {
        None
    }
}

pub open spec fn is_digit(c: char) -> bool {
    '0' <= c <= '9'
}

pub open spec fn all_digits(s: Seq<char>) -> bool {
    forall|i: int| 0 <= i < s.len() ==> is_digit(#[trigger] s[i])
}

/// The value of a run of digits.
pub open spec fn digits_value(s: Seq<char>) -> int
    decreases s.len(),
{
    if s.len() == 0 {
        0
    } else {
        10 * digits_value(s.drop_last()) + (s.last() as int - '0' as int)
    }
}

/// The number that a text writes in decimal, where it does and no more than `max`. A plus
/// sign may precede it.
pub open spec fn number(s: Seq<char>, max: int) -> Option<int> {
    let d = if s.len() > 0 && s[0] == '+' {
        s.skip(1)
    } else {
        s
    };
    if d.len() > 0 && all_digits(d) && digits_value(d) <= max {
        Some(digits_value(d))
    } else {
        None
    }
}

/// Whether a text is one octet of an address: one to three digits, without a leading zero.
pub open spec fn is_octet(s: Seq<char>) -> bool {
    &&& 1 <= s.len() <= 3
    &&& all_digits(s)
    &&& s.len() > 1 ==> s[0] != '0'
    &&& digits_value(s) <= 255
}

/// The address that a text writes as four octets with dots between, where it does.
pub open spec fn address_of(s: Seq<char>) -> Option<u32> {
    let p = split(s, '.');
    if p.len() == 4 && is_octet(p[0]) && is_octet(p[1]) && is_octet(p[2]) && is_octet(p[3]) {
        Some(
            (digits_value(p[0]) * 0x100_0000 + digits_value(p[1]) * 0x1_0000 + digits_value(p[2]) * 0x100
                + digits_value(p[3])) as u32,
        )
    } else {
        None
    }
}

/// A text in upper case, letters of ASCII alone.
pub open spec fn upper(s: Seq<char>) -> Seq<char> {
    s.map_values(|c: char| upper_char(c))
}

pub open spec fn upper_char(c: char) -> char {
    if 'a' <= c <= 'z' {
        (c as int - 32) as char
    } else {
        c
    }
}

pub proof fn lemma_first_of(s: Seq<char>, c: char)
    ensures
        0 <= first_of(s, c) <= s.len(),
        first_of(s, c) < s.len() ==> s[first_of(s, c)] == c,
        forall|i: int| 0 <= i < first_of(s, c) ==> s[i] != c,
    decreases s.len(),
{
    if s.len() > 0 && s[0] != c {
        lemma_first_of(s.skip(1), c);
        assert forall|i: int| 0 <= i < first_of(s, c) implies s[i] != c by {
            if i > 0 {
                assert(s.skip(1)[i - 1] == s[i]);
            }
        }
    }
}

pub proof fn lemma_first_of_is(s: Seq<char>, c: char, k: int)
    requires
        0 <= k <= s.len(),
        forall|i: int| 0 <= i < k ==> s[i] != c,
        k < s.len() ==> s[k] == c,
    ensures
        first_of(s, c) == k,
{
    lemma_first_of(s, c);
    let f = first_of(s, c);
    if f < k {
        assert(s[f] != c);
    }
}

pub proof fn lemma_first_space(s: Seq<char>)
    ensures
        0 <= first_space(s) <= s.len(),
        first_space(s) < s.len() ==> is_space(s[first_space(s)]),
        s.len() > 0 && !is_space(s[0]) ==> first_space(s) > 0,
        forall|i: int| 0 <= i < first_space(s) ==> !is_space(s[i]),
    decreases s.len(),
{
    if s.len() > 0 && !is_space(s[0]) {
        lemma_first_space(s.skip(1));
        assert forall|i: int| 0 <= i < first_space(s) implies !is_space(s[i]) by {
            if i > 0 {
                assert(s.skip(1)[i - 1] == s[i]);
            }
        }
    }
}

pub proof fn lemma_first_space_is(s: Seq<char>, k: int)
    requires
        0 <= k <= s.len(),
        forall|i: int| 0 <= i < k ==> !is_space(s[i]),
        k < s.len() ==> is_space(s[k]),
    ensures
        first_space(s) == k,
{
    lemma_first_space(s);
    let f = first_space(s);
    if f < k {
        assert(!is_space(s[f]));
    }
}

pub proof fn lemma_first_ink(s: Seq<char>)
    ensures
        0 <= first_ink(s) <= s.len(),
        first_ink(s) < s.len() ==> !is_space(s[first_ink(s)]),
        forall|i: int| 0 <= i < first_ink(s) ==> is_space(s[i]),
    decreases s.len(),
{
    if s.len() > 0 && is_space(s[0]) {
        lemma_first_ink(s.skip(1));
        assert forall|i: int| 0 <= i < first_ink(s) implies is_space(s[i]) by {
            if i > 0 {
                assert(s.skip(1)[i - 1] == s[i]);
            }
        }
    }
}

proof fn lemma_first_ink_is(s: Seq<char>, k: int)
    requires
        0 <= k <= s.len(),
        forall|i: int| 0 <= i < k ==> is_space(s[i]),
        k < s.len() ==> !is_space(s[k]),
    ensures
        first_ink(s) == k,
{
    lemma_first_ink(s);
    let f = first_ink(s);
    if f < k {
        assert(is_space(s[f]));
    }
}

/// Where a character first occurs, or the length where it does not.
pub fn find(s: &[char], c: char) -> (k: usize)
    ensures
        k == first_of(s@, c),
        k <= s@.len(),
{
    let mut k: usize = 0;
    while k < s.len() && s[k] != c
        invariant
            k <= s@.len(),
            forall|i: int| 0 <= i < k ==> s@[i] != c,
        decreases s@.len() - k,
    {
        k += 1;
    }
    proof {
        lemma_first_of_is(s@, c, k as int);
    }
    k
}

/// Where white space first occurs, or the length where it does not.
pub fn find_space(s: &[char]) -> (k: usize)
    ensures
        k == first_space(s@),
        k <= s@.len(),
{
    let mut k: usize = 0;
    while k < s.len() && !space(s[k])
        invariant
            k <= s@.len(),
            forall|i: int| 0 <= i < k ==> !is_space(s@[i]),
        decreases s@.len() - k,
    {
        k += 1;
    }
    proof {
        lemma_first_space_is(s@, k as int);
    }
    k
}

fn find_ink(s: &[char]) -> (k: usize)
    ensures
        k == first_ink(s@),
        k <= s@.len(),
{
    let mut k: usize = 0;
    while k < s.len() && space(s[k])
        invariant
            k <= s@.len(),
            forall|i: int| 0 <= i < k ==> is_space(s@[i]),
        decreases s@.len() - k,
    {
        k += 1;
    }
    proof {
        lemma_first_ink_is(s@, k as int);
    }
    k
}

/// A part of a text.
pub fn part(s: &[char], from: usize, to: usize) -> (r: &[char])
    requires
        from <= to <= s@.len(),
    ensures
        r@ == s@.subrange(from as int, to as int),
{
    vstd::slice::slice_subrange(s, from, to)
}

/// The texts of a list.
pub open spec fn pieces_view(v: Seq<Vec<char>>) -> Seq<Seq<char>> {
    v.map_values(|p: Vec<char>| p@)
}

/// A text taken apart at every occurrence of a character.
pub fn split_at_each(s: &[char], c: char) -> (r: Vec<Vec<char>>)
    ensures
        pieces_view(r@) == split(s@, c),
{
    let mut out: Vec<Vec<char>> = Vec::new();
    let mut at: usize = 0;
    assert(s@.skip(0) =~= s@);
    assert(pieces_view(out@) + split(s@, c) =~= split(s@, c));
    loop
        invariant_except_break
            pieces_view(out@) + split(s@.skip(at as int), c) == split(s@, c),
        invariant
            at <= s@.len(),
        ensures
            pieces_view(out@) == split(s@, c),
        decreases s@.len() - at,
    {
        let rest = part(s, at, s.len());
        assert(rest@ =~= s@.skip(at as int));
        let k: usize = find(rest, c);
        let piece = vstd::slice::slice_to_vec(part(rest, 0, k));
        let ghost before = pieces_view(out@);
        assert(rest@.subrange(0, k as int) =~= rest@.take(k as int));
        out.push(piece);
        assert(pieces_view(out@) =~= before.push(rest@.take(k as int)));
        if k >= rest.len() {
            proof {
                assert(rest@.take(k as int) =~= rest@);
                assert(before.push(rest@) =~= before + seq![rest@]);
            }
            break;
        }
        proof {
            assert(rest@.skip(k + 1) =~= s@.skip(at + k + 1));
            assert(before.push(rest@.take(k as int)) + split(rest@.skip(k + 1), c) =~= before + (seq![
                rest@.take(k as int),
            ] + split(rest@.skip(k + 1), c)));
        }
        at = at + k + 1;
    }
    out
}

/// The words of a text.
pub fn words_of(s: &[char]) -> (r: Vec<Vec<char>>)
    ensures
        pieces_view(r@) == words(s@),
{
    let mut out: Vec<Vec<char>> = Vec::new();
    let mut at: usize = 0;
    assert(s@.skip(0) =~= s@);
    assert(pieces_view(out@) + words(s@) =~= words(s@));
    loop
        invariant
            at <= s@.len(),
            pieces_view(out@) + words(s@.skip(at as int)) == words(s@),
        ensures
            pieces_view(out@) == words(s@),
        decreases s@.len() - at,
    {
        let rest = part(s, at, s.len());
        assert(rest@ =~= s@.skip(at as int));
        let ink: usize = find_ink(rest);
        let word = part(rest, ink, rest.len());
        assert(word@ =~= rest@.skip(ink as int));
        if word.len() == 0 {
            assert(pieces_view(out@) + Seq::<Seq<char>>::empty() =~= pieces_view(out@));
            break;
        }
        let k: usize = find_space(word);
        let ghost before = pieces_view(out@);
        proof {
            lemma_first_ink(rest@);
            lemma_first_space(word@);
            assert(word@[0] == rest@[ink as int]);
            assert(word@.subrange(0, k as int) =~= word@.take(k as int));
        }
        out.push(vstd::slice::slice_to_vec(part(word, 0, k)));
        proof {
            assert(pieces_view(out@) =~= before.push(word@.take(k as int)));
            assert(word@.skip(k as int) =~= s@.skip(at + ink + k));
            assert(before.push(word@.take(k as int)) + words(word@.skip(k as int)) =~= before + (seq![
                word@.take(k as int),
            ] + words(word@.skip(k as int))));
        }
        at = at + ink + k;
    }
    out
}

/// A text without the white space around it.
pub fn trim(s: &[char]) -> (r: &[char])
    ensures
        r@ == trimmed(s@),
{
    let from: usize = find_ink(s);
    let mut to: usize = s.len();
    assert(s@.subrange(from as int, to as int) =~= s@.skip(from as int));
    while to > from && space(s[to - 1])
        invariant
            from <= to <= s@.len(),
            trim_end(s@.subrange(from as int, to as int)) == trim_end(s@.skip(from as int)),
        decreases to,
    {
        proof {
            let t = s@.subrange(from as int, to as int);
            assert(t.last() == s@[to - 1]);
            assert(t.drop_last() =~= s@.subrange(from as int, to - 1));
        }
        to -= 1;
    }
    proof {
        let t = s@.subrange(from as int, to as int);
        if to > from {
            assert(t.last() == s@[to - 1]);
        }
    }
    part(s, from, to)
}

/// A line without the carriage returns at its end.
pub fn without_returns(s: &[char]) -> (r: &[char])
    ensures
        r@ == strip_returns(s@),
{
    let mut to: usize = s.len();
    assert(s@.subrange(0, to as int) =~= s@);
    while to > 0 && s[to - 1] == '\r'
        invariant
            to <= s@.len(),
            strip_returns(s@.subrange(0, to as int)) == strip_returns(s@),
        decreases to,
    {
        proof {
            let t = s@.subrange(0, to as int);
            assert(t.last() == s@[to - 1]);
            assert(t.drop_last() =~= s@.subrange(0, to - 1));
        }
        to -= 1;
    }
    proof {
        let t = s@.subrange(0, to as int);
        if to > 0 {
            assert(t.last() == s@[to - 1]);
        }
    }
    part(s, 0, to)
}

/// Whether two runs of characters are the same.
pub fn same_chars(a: &[char], b: &[char]) -> (r: bool)
    ensures
        r == (a@ == b@),
{
    if a.len() != b.len() {
        return false;
    }
    let mut i: usize = 0;
    while i < a.len()
        invariant
            i <= a@.len(),
            a@.len() == b@.len(),
            forall|j: int| 0 <= j < i ==> a@[j] == b@[j],
        decreases a@.len() - i,
    {
        if a[i] != b[i] {
            return false;
        }
        i += 1;
    }
    assert(a@ =~= b@);
    true
}

/// What follows a prefix, where there is one.
pub fn strip_prefix<'a>(s: &'a [char], prefix: &[char]) -> (r: Option<&'a [char]>)
    ensures
        match r {
            Some(rest) => after(s@, prefix@) == Some(rest@),
            None => after(s@, prefix@) is None,
        },
{
    if s.len() < prefix.len() {
        return None;
    }
    let head = part(s, 0, prefix.len());
    if same_chars(head, prefix) {
        let rest = part(s, prefix.len(), s.len());
        proof {
            assert(rest@ =~= s@.skip(prefix@.len() as int));
            assert(prefix@ =~= s@.subrange(0, prefix@.len() as int));
        }
        Some(rest)
    } else {
        proof {
            if prefix@.is_prefix_of(s@) {
                assert(head@ =~= prefix@);
            }
        }
        None
    }
}

proof fn lemma_value_grows(s: Seq<char>, n: int)
    requires
        all_digits(s),
        0 <= n <= s.len(),
    ensures
        0 <= digits_value(s.take(n)) <= digits_value(s),
    decreases s.len(),
{
    if n == s.len() {
        assert(s.take(n) =~= s);
        lemma_value_positive(s);
    } else {
        let t = s.drop_last();
        assert(t.take(n) =~= s.take(n));
        assert forall|i: int| 0 <= i < t.len() implies is_digit(#[trigger] t[i]) by {
            assert(t[i] == s[i]);
        }
        lemma_value_grows(t, n);
        assert(is_digit(s[s.len() - 1]));
    }
}

proof fn lemma_value_positive(s: Seq<char>)
    requires
        all_digits(s),
    ensures
        digits_value(s) >= 0,
    decreases s.len(),
{
    if s.len() > 0 {
        let t = s.drop_last();
        assert forall|i: int| 0 <= i < t.len() implies is_digit(#[trigger] t[i]) by {
            assert(t[i] == s[i]);
        }
        lemma_value_positive(t);
        assert(is_digit(s[s.len() - 1]));
    }
}

/// The value of a run of digits, where it is one and no more than `max`.
pub fn digits_up_to(d: &[char], max: u64) -> (r: Option<u64>)
    ensures
        match r {
            Some(n) => d@.len() > 0 && all_digits(d@) && n == digits_value(d@) && n <= max,
            None => d@.len() == 0 || !all_digits(d@) || digits_value(d@) > max,
        },
{
    if d.len() == 0 {
        return None;
    }
    let mut value: u64 = 0;
    let mut i: usize = 0;
    assert(d@.take(0) =~= Seq::<char>::empty());
    while i < d.len()
        invariant
            i <= d@.len(),
            value <= max,
            value == digits_value(d@.take(i as int)),
            forall|j: int| 0 <= j < i ==> is_digit(d@[j]),
        decreases d@.len() - i,
    {
        let c = d[i];
        if c < '0' || c > '9' {
            assert(!is_digit(d@[i as int]));
            return None;
        }
        proof {
            let t = d@.take(i + 1);
            assert(t.drop_last() =~= d@.take(i as int));
            assert(t.last() == c);
        }
        let digit: u64 = c as u64 - '0' as u64;
        let next: u128 = value as u128 * 10 + digit as u128;
        if next > max as u128 {
            proof {
                if all_digits(d@) {
                    lemma_value_grows(d@, i + 1);
                }
            }
            return None;
        }
        value = next as u64;
        i += 1;
    }
    assert(d@.take(i as int) =~= d@);
    Some(value)
}

/// The number that a text writes in decimal, where it does and no more than `max`.
pub fn parse_number(s: &[char], max: u64) -> (r: Option<u64>)
    ensures
        match r {
            Some(n) => number(s@, max as int) == Some(n as int) && n <= max,
            None => number(s@, max as int) is None,
        },
{
    if s.len() > 0 && s[0] == '+' {
        let d = part(s, 1, s.len());
        assert(d@ =~= s@.skip(1));
        digits_up_to(d, max)
    } else {
        digits_up_to(s, max)
    }
}

fn octet(s: &[char]) -> (r: Option<u32>)
    ensures
        match r {
            Some(n) => is_octet(s@) && n == digits_value(s@) && n <= 255,
            None => !is_octet(s@),
        },
{
    if s.len() == 0 || s.len() > 3 || (s.len() > 1 && s[0] == '0') {
        return None;
    }
    match digits_up_to(s, 255) {
        Some(n) => Some(n as u32),
        None => None,
    }
}

/// The address that a text writes as four octets with dots between, where it does.
pub fn parse_address(s: &[char]) -> (r: Option<u32>)
    ensures
        r == address_of(s@),
{
    let p = split_at_each(s, '.');
    let ghost view = pieces_view(p@);
    assert(view.len() == p@.len());
    if p.len() != 4 {
        return None;
    }
    assert(view[0] == p@[0]@ && view[1] == p@[1]@ && view[2] == p@[2]@ && view[3] == p@[3]@);
    match (octet(p[0].as_slice()), octet(p[1].as_slice()), octet(p[2].as_slice()), octet(p[3].as_slice())) {
        (Some(a), Some(b), Some(c), Some(d)) => Some(a * 0x100_0000 + b * 0x1_0000 + c * 0x100 + d),
        _ => None,
    }
}

/// A text in upper case, letters of ASCII alone.
pub fn to_upper(s: &[char]) -> (r: Vec<char>)
    ensures
        r@ == upper(s@),
{
    let mut out: Vec<char> = Vec::new();
    let mut i: usize = 0;
    while i < s.len()
        invariant
            i <= s@.len(),
            out@ == upper(s@.take(i as int)),
        decreases s@.len() - i,
    {
        let c = s[i];
        let u = if 'a' <= c && c <= 'z' {
            (c as u8 - 32) as char
        } else {
            c
        };
        out.push(u);
        i += 1;
        assert(out@ =~= upper(s@.take(i as int)));
    }
    assert(s@.take(i as int) =~= s@);
    out
}

} // verus!
