//! How taking text apart undoes putting it together.

use vstd::prelude::*;

use crate::rtp::scan::{
    all_digits, digits_value, first_ink, first_of, is_digit, is_octet, is_space, lemma_first_ink, lemma_first_of,
    lemma_first_of_is, lemma_first_space_is, number, split, trim_end, trimmed, words,
};
use crate::text::{decimal, digit_char};
use crate::text_laws::{counts, digit};

verus! {

/// Whether a character does not occur in a text.
pub open spec fn free_of(s: Seq<char>, c: char) -> bool {
    forall|i: int| 0 <= i < s.len() ==> #[trigger] s[i] != c
}

/// Whether a text is a word: not empty, and without white space.
pub open spec fn is_word(s: Seq<char>) -> bool {
    &&& s.len() > 0
    &&& forall|i: int| 0 <= i < s.len() ==> !is_space(#[trigger] s[i])
}

/// A text without the separator is one piece.
pub proof fn lemma_split_one(a: Seq<char>, c: char)
    requires
        free_of(a, c),
    ensures
        split(a, c) == seq![a],
{
    lemma_first_of_is(a, c, a.len() as int);
}

/// The first piece ends at the first separator.
pub proof fn lemma_split_more(a: Seq<char>, c: char, b: Seq<char>)
    requires
        free_of(a, c),
    ensures
        split(a + seq![c] + b, c) == seq![a] + split(b, c),
{
    let s = a + seq![c] + b;
    let k = a.len() as int;
    assert forall|i: int| 0 <= i < k implies s[i] != c by {
        assert(s[i] == a[i]);
    }
    assert(s[k] == c);
    lemma_first_of_is(s, c, k);
    assert(s.take(k) =~= a);
    assert(s.skip(k + 1) =~= b);
}

/// The first word ends where white space begins.
pub proof fn lemma_words_more(w: Seq<char>, rest: Seq<char>)
    requires
        is_word(w),
        rest.len() == 0 || is_space(rest[0]),
    ensures
        words(w + rest) == seq![w] + words(rest),
{
    let s = w + rest;
    let k = w.len() as int;
    assert(s[0] == w[0]);
    assert(first_ink(s) == 0);
    assert(s.skip(0) =~= s);
    assert forall|i: int| 0 <= i < k implies !is_space(s[i]) by {
        assert(s[i] == w[i]);
    }
    if rest.len() > 0 {
        assert(s[k] == rest[0]);
    }
    lemma_first_space_is(s, k);
    assert(s.take(k) =~= w);
    assert(s.skip(k) =~= rest);
}

/// White space before a text adds no word.
pub proof fn lemma_words_gap(rest: Seq<char>)
    ensures
        words(seq![' '] + rest) == words(rest),
{
    let s = seq![' '] + rest;
    assert(s[0] == ' ');
    assert(s.skip(1) =~= rest);
    assert(first_ink(s) == 1 + first_ink(rest));
    lemma_first_ink(rest);
    assert(s.skip(first_ink(s)) =~= rest.skip(first_ink(rest)));
}

/// A text of one word.
pub proof fn lemma_words_last(w: Seq<char>)
    requires
        is_word(w),
    ensures
        words(w) == seq![w],
{
    let none = Seq::<char>::empty();
    lemma_words_more(w, none);
    assert(w + none =~= w);
    assert(first_ink(none) == 0);
    assert(none.skip(0) =~= none);
    assert(words(none) =~= Seq::<Seq<char>>::empty());
    assert(seq![w] + Seq::<Seq<char>>::empty() =~= seq![w]);
}

/// A word, a blank, and more.
pub proof fn lemma_words_then(w: Seq<char>, rest: Seq<char>)
    requires
        is_word(w),
    ensures
        words(w + seq![' '] + rest) == seq![w] + words(rest),
{
    let tail = seq![' '] + rest;
    assert(tail[0] == ' ');
    lemma_words_more(w, tail);
    lemma_words_gap(rest);
    assert(w + seq![' '] + rest =~= w + tail);
}

/// What a number looks like in decimal.
pub proof fn lemma_decimal(n: nat)
    ensures
        decimal(n).len() >= 1,
        all_digits(decimal(n)),
        digits_value(decimal(n)) == n,
        n < 10 ==> decimal(n).len() == 1,
        n < 100 ==> decimal(n).len() <= 2,
        n < 1000 ==> decimal(n).len() <= 3,
        n >= 1 ==> decimal(n)[0] != '0',
    decreases n,
{
    if n < 10 {
        let s = decimal(n);
        assert(s =~= seq![digit_char(n as int)]);
        assert(s.drop_last() =~= Seq::<char>::empty());
        assert(digits_value(s.drop_last()) == 0);
        assert(is_digit(s[0]));
    } else {
        let t = decimal(n / 10);
        let s = decimal(n);
        lemma_decimal(n / 10);
        assert(s.drop_last() =~= t);
        assert(s.last() == digit_char((n % 10) as int));
        assert forall|i: int| 0 <= i < s.len() implies is_digit(#[trigger] s[i]) by {
            if i < t.len() {
                assert(s[i] == t[i]);
                assert(is_digit(t[i]));
            }
        }
        assert(s[0] == t[0]);
    }
}

/// A number in decimal reads back as itself.
pub proof fn lemma_number_back(n: nat, max: int)
    requires
        n <= max,
    ensures
        number(decimal(n), max) == Some(n as int),
{
    lemma_decimal(n);
    assert(is_digit(decimal(n)[0]));
}

/// A run of digits is a word, and free of anything but digits.
pub proof fn lemma_digits_plain(n: nat)
    ensures
        is_word(decimal(n)),
        free_of(decimal(n), '.'),
        free_of(decimal(n), '/'),
        free_of(decimal(n), ':'),
        free_of(decimal(n), '\n'),
        decimal(n).last() != '\r',
        !is_space(decimal(n).last()),
{
    lemma_decimal(n);
    let s = decimal(n);
    assert forall|i: int| 0 <= i < s.len() implies is_digit(#[trigger] s[i]) by {}
    assert(is_digit(s[s.len() - 1]));
}

/// An octet in decimal is one.
pub proof fn lemma_octet_back(n: nat)
    requires
        n <= 255,
    ensures
        is_octet(decimal(n)),
        digits_value(decimal(n)) == n,
{
    lemma_decimal(n);
}

/// A text that begins and ends with ink needs no trimming.
pub proof fn lemma_trimmed_already(s: Seq<char>)
    requires
        s.len() > 0,
        !is_space(s[0]),
        !is_space(s.last()),
    ensures
        trim_end(s.skip(first_ink(s))) == s,
{
    assert(first_ink(s) == 0);
    assert(s.skip(0) =~= s);
}

// What the pieces are.

/// Pieces with a separator between each two.
pub open spec fn with_between(p: Seq<Seq<char>>, c: char) -> Seq<char>
    decreases p.len(),
{
    if p.len() == 0 {
        Seq::empty()
    } else if p.len() == 1 {
        p[0]
    } else {
        p[0] + seq![c] + with_between(p.skip(1), c)
    }
}

/// A text is taken apart at every separator and nowhere else: no piece has one, and the pieces
/// with separators between them are the text.
pub proof fn law_pieces_join_back(s: Seq<char>, c: char)
    ensures
        split(s, c).len() > 0,
        forall|i: int| 0 <= i < split(s, c).len() ==> free_of(#[trigger] split(s, c)[i], c),
        with_between(split(s, c), c) == s,
    decreases s.len(),
{
    let k = first_of(s, c);
    lemma_first_of(s, c);
    if k >= s.len() {
        assert(split(s, c) =~= seq![s]);
    } else {
        let rest = s.skip(k + 1);
        law_pieces_join_back(rest, c);
        let p = split(s, c);
        assert(p =~= seq![s.take(k)] + split(rest, c));
        assert(p.skip(1) =~= split(rest, c));
        assert(s =~= s.take(k) + seq![c] + rest);
        assert forall|i: int| 0 <= i < p.len() implies free_of(#[trigger] p[i], c) by {
            if i > 0 {
                assert(p[i] == split(rest, c)[i - 1]);
            } else {
                assert forall|j: int| 0 <= j < k implies #[trigger] s.take(k)[j] != c by {
                    assert(s[j] != c);
                }
            }
        }
    }
}

/// Words are what white space keeps apart: nothing has none, a word is its own, white space in
/// front adds none, and behind a word and white space come the words of the rest.
pub proof fn law_words_are_kept_apart_by_space(w: Seq<char>, gap: char, rest: Seq<char>)
    requires
        is_word(w),
        is_space(gap),
    ensures
        words(Seq::<char>::empty()) == Seq::<Seq<char>>::empty(),
        words(w) == seq![w],
        words(seq![gap] + rest) == words(rest),
        words(w + (seq![gap] + rest)) == seq![w] + words(rest),
{
    let none = Seq::<char>::empty();
    assert(none.skip(first_ink(none)) =~= none);
    lemma_words_last(w);
    let s = seq![gap] + rest;
    assert(s[0] == gap);
    assert(s.skip(1) =~= rest);
    assert(first_ink(s) == 1 + first_ink(rest));
    lemma_first_ink(rest);
    assert(s.skip(first_ink(s)) =~= rest.skip(first_ink(rest)));
    lemma_words_more(w, s);
}

/// Whether a text is white space alone.
pub open spec fn blank(s: Seq<char>) -> bool {
    forall|i: int| 0 <= i < s.len() ==> is_space(#[trigger] s[i])
}

proof fn lemma_trim_blank(s: Seq<char>, b: Seq<char>)
    requires
        blank(b),
        s.len() > 0 ==> !is_space(s.last()),
    ensures
        trim_end(s + b) == s,
    decreases b.len(),
{
    let t = s + b;
    if b.len() == 0 {
        assert(t =~= s);
    } else {
        assert(is_space(b[b.len() - 1]));
        assert(t.last() == b.last());
        let c = b.drop_last();
        assert forall|i: int| 0 <= i < c.len() implies is_space(#[trigger] c[i]) by {
            assert(is_space(b[i]));
        }
        assert(t.drop_last() =~= s + c);
        lemma_trim_blank(s, c);
    }
}

proof fn lemma_ink_behind(a: Seq<char>, s: Seq<char>)
    requires
        blank(a),
        s.len() > 0 ==> !is_space(s[0]),
    ensures
        first_ink(a + s) == a.len(),
    decreases a.len(),
{
    let t = a + s;
    if a.len() == 0 {
        assert(t =~= s);
    } else {
        assert(is_space(a[0]));
        assert(t[0] == a[0]);
        let b = a.skip(1);
        assert forall|i: int| 0 <= i < b.len() implies is_space(#[trigger] b[i]) by {
            assert(is_space(a[i + 1]));
        }
        assert(t.skip(1) =~= b + s);
        lemma_ink_behind(b, s);
    }
}

/// Trimming takes off the white space around a text and nothing else.
pub proof fn law_trimming_takes_off_the_space_around(a: Seq<char>, s: Seq<char>, b: Seq<char>)
    requires
        blank(a),
        blank(b),
        s.len() > 0,
        !is_space(s[0]),
        !is_space(s.last()),
    ensures
        trimmed(a + s + b) == s,
        trimmed(a) == Seq::<char>::empty(),
{
    let t = a + s + b;
    assert(t =~= a + (s + b));
    assert((s + b)[0] == s[0]);
    lemma_ink_behind(a, s + b);
    assert(t.skip(a.len() as int) =~= s + b);
    lemma_trim_blank(s, b);
    let none = Seq::<char>::empty();
    lemma_ink_behind(a, none);
    assert(a + none =~= a);
    assert(a.skip(a.len() as int) =~= none);
}

proof fn lemma_counts(s: Seq<char>)
    requires
        all_digits(s),
    ensures
        counts(s) == digits_value(s),
        forall|i: int| 0 <= i < s.len() ==> 0 <= digit(#[trigger] s[i]) <= 9,
    decreases s.len(),
{
    assert forall|i: int| 0 <= i < s.len() implies 0 <= digit(#[trigger] s[i]) <= 9 by {
        assert(is_digit(s[i]));
    }
    if s.len() > 0 {
        let t = s.drop_last();
        assert forall|i: int| 0 <= i < t.len() implies is_digit(#[trigger] t[i]) by {
            assert(is_digit(s[i]));
        }
        lemma_counts(t);
        assert(is_digit(s[s.len() - 1]));
    }
}

/// Whether a text is nothing but decimal digits, and one at least.
pub open spec fn is_count(s: Seq<char>) -> bool {
    s.len() > 0 && forall|i: int| 0 <= i < s.len() ==> 0 <= digit(#[trigger] s[i]) <= 9
}

/// A number is read from digits alone, one at least, with or without a plus in front, and is what
/// they count to; unless that is too much.
pub proof fn law_numbers_are_read_from_digits(s: Seq<char>, max: int)
    ensures
        ({
            let d = if s.len() > 0 && s[0] == '+' {
                s.skip(1)
            } else {
                s
            };
            &&& is_count(d) && counts(d) <= max ==> number(s, max) == Some(counts(d))
            &&& !is_count(d) || counts(d) > max ==> number(s, max) is None
        }),
{
    let d = if s.len() > 0 && s[0] == '+' {
        s.skip(1)
    } else {
        s
    };
    if all_digits(d) {
        lemma_counts(d);
    }
    if is_count(d) {
        assert forall|i: int| 0 <= i < d.len() implies is_digit(#[trigger] d[i]) by {
            assert(0 <= digit(d[i]) <= 9);
        }
    }
}

} // verus!
