//! Big-endian numbers in byte buffers.

use vstd::prelude::*;

verus! {

/// `v` in `n` bytes, most significant first; what does not fit is dropped.
pub open spec fn be_bytes(v: nat, n: nat) -> Seq<u8>
    decreases n,
{
    if n == 0 {
        Seq::empty()
    } else {
        be_bytes(v / 256, (n - 1) as nat).push((v % 256) as u8)
    }
}

/// The number that bytes spell, most significant first.
pub open spec fn be_value(s: Seq<u8>) -> nat
    decreases s.len(),
{
    if s.len() == 0 {
        0
    } else {
        be_value(s.drop_last()) * 256 + s.last() as nat
    }
}

/// 256 to the power of `n`.
pub open spec fn radix(n: nat) -> nat
    decreases n,
{
    if n == 0 {
        1
    } else {
        256 * radix((n - 1) as nat)
    }
}

/// The buffer with `bytes` written at `at`.
pub open spec fn splice(s: Seq<u8>, at: int, bytes: Seq<u8>) -> Seq<u8> {
    s.subrange(0, at) + bytes + s.subrange(at + bytes.len(), s.len() as int)
}

pub proof fn lemma_be_bytes_len(v: nat, n: nat)
    ensures
        be_bytes(v, n).len() == n,
    decreases n,
{
    if n > 0 {
        lemma_be_bytes_len(v / 256, (n - 1) as nat);
    }
}

pub proof fn lemma_be_value_bound(s: Seq<u8>)
    ensures
        be_value(s) < radix(s.len()),
    decreases s.len(),
{
    if s.len() > 0 {
        lemma_be_value_bound(s.drop_last());
    }
}

/// Reading back what was written gives the number, as far as it fits.
pub proof fn lemma_be_round_trip(v: nat, n: nat)
    ensures
        be_value(be_bytes(v, n)) == v % radix(n),
        v < radix(n) ==> be_value(be_bytes(v, n)) == v,
    decreases n,
{
    if n > 0 {
        let m = (n - 1) as nat;
        lemma_be_round_trip(v / 256, m);
        assert(be_bytes(v, n).drop_last() =~= be_bytes(v / 256, m));
        lemma_radix_positive(m);
        let r = radix(m);
        assert(v % (256 * r) == (v / 256) % r * 256 + v % 256) by {
            vstd::arithmetic::div_mod::lemma_breakdown(v as int, 256, r as int);
        }
        if v < radix(n) {
            assert(v % (256 * r) == v) by {
                vstd::arithmetic::div_mod::lemma_small_mod(v, (256 * r) as nat);
            }
        }
    }
}

pub proof fn lemma_radix_positive(n: nat)
    ensures
        radix(n) > 0,
    decreases n,
{
    if n > 0 {
        lemma_radix_positive((n - 1) as nat);
    }
}

pub proof fn lemma_radix_values()
    ensures
        radix(1) == 0x100,
        radix(2) == 0x1_0000,
        radix(3) == 0x100_0000,
        radix(4) == 0x1_0000_0000,
        radix(6) == 0x1_0000_0000_0000,
        radix(8) == 0x1_0000_0000_0000_0000,
{
    reveal_with_fuel(radix, 9);
}

proof fn lemma_radix_monotone(m: nat, n: nat)
    requires
        m <= n,
    ensures
        radix(m) <= radix(n),
    decreases n - m,
{
    if m < n {
        lemma_radix_monotone(m + 1, n);
        lemma_radix_positive(m);
    }
}

/// Appends `v` in `n` bytes.
pub fn push_be(out: &mut Vec<u8>, v: u64, n: usize)
    requires
        n <= 8,
    ensures
        final(out)@ == old(out)@ + be_bytes(v as nat, n as nat),
    decreases n,
{
    if n > 0 {
        push_be(out, v / 256, n - 1);
        out.push((v % 256) as u8);
    }
    assert(out@ =~= old(out)@ + be_bytes(v as nat, n as nat));
}

/// Reads `n` bytes at `at`.
pub fn read_be(buf: &[u8], at: usize, n: usize) -> (r: u64)
    requires
        n <= 8,
        at + n <= buf@.len(),
    ensures
        r == be_value(buf@.subrange(at as int, at + n)),
        r < radix(n as nat),
{
    let mut acc: u64 = 0;
    let mut i: usize = 0;
    while i < n
        invariant
            i <= n <= 8,
            at + n <= buf@.len(),
            acc == be_value(buf@.subrange(at as int, at + i)),
        decreases n - i,
    {
        let ghost part = buf@.subrange(at as int, at + i);
        let ghost next = buf@.subrange(at as int, at + i + 1);
        proof {
            assert(next.drop_last() =~= part);
            assert(next.last() == buf@[at + i]);
            lemma_be_value_bound(next);
            lemma_radix_monotone(next.len(), 8);
            lemma_radix_values();
            assert(buf.len() <= usize::MAX);
        }
        acc = acc * 256 + buf[at + i] as u64;
        i += 1;
    }
    proof {
        lemma_be_value_bound(buf@.subrange(at as int, at + n));
    }
    acc
}

/// Writes bytes over a part of a buffer.
pub fn overwrite(out: &mut [u8], at: usize, bytes: &[u8])
    requires
        at + bytes@.len() <= old(out)@.len(),
    ensures
        final(out)@ == splice(old(out)@, at as int, bytes@),
{
    let mut i: usize = 0;
    while i < bytes.len()
        invariant
            i <= bytes@.len(),
            at + bytes@.len() <= old(out)@.len(),
            out@ == splice(old(out)@, at as int, bytes@.take(i as int)),
        decreases bytes@.len() - i,
    {
        assert(out.len() <= usize::MAX);
        out[at + i] = bytes[i];
        i += 1;
        assert(out@ =~= splice(old(out)@, at as int, bytes@.take(i as int)));
    }
    assert(bytes@.take(i as int) =~= bytes@);
    assert(out@ =~= splice(old(out)@, at as int, bytes@));
}

/// A signed number from its two's complement.
pub open spec fn signed(v: nat, n: nat) -> int {
    if 2 * v < radix(n) {
        v as int
    } else {
        v - radix(n)
    }
}

/// The two's complement of a signed number.
pub open spec fn unsigned(v: int, n: nat) -> nat {
    if v < 0 {
        (v + radix(n)) as nat
    } else {
        v as nat
    }
}

pub fn to_i64(v: u64) -> (r: i64)
    ensures
        r == signed(v as nat, 8),
{
    proof {
        lemma_radix_values();
        assert(v < 0x8000_0000_0000_0000 ==> (v as i64) == v) by (bit_vector);
        assert(v >= 0x8000_0000_0000_0000 ==> (v as i64) == v - 0x1_0000_0000_0000_0000) by (bit_vector);
    }
    v as i64
}

pub fn from_i64(v: i64) -> (r: u64)
    ensures
        r == unsigned(v as int, 8),
{
    proof {
        lemma_radix_values();
        assert(v >= 0 ==> (v as u64) == v) by (bit_vector);
        assert(v < 0 ==> (v as u64) == v + 0x1_0000_0000_0000_0000) by (bit_vector);
    }
    v as u64
}

pub fn to_i16(v: u16) -> (r: i16)
    ensures
        r == signed(v as nat, 2),
{
    proof {
        lemma_radix_values();
        assert(v < 0x8000 ==> (v as i16) == v) by (bit_vector);
        assert(v >= 0x8000 ==> (v as i16) == v - 0x1_0000) by (bit_vector);
    }
    v as i16
}

pub fn to_i8(v: u8) -> (r: i8)
    ensures
        r == signed(v as nat, 1),
{
    proof {
        lemma_radix_values();
        assert(v < 0x80 ==> (v as i8) == v) by (bit_vector);
        assert(v >= 0x80 ==> (v as i8) == v - 0x100) by (bit_vector);
    }
    v as i8
}

pub fn from_i8(v: i8) -> (r: u8)
    ensures
        r == unsigned(v as int, 1),
{
    proof {
        lemma_radix_values();
        assert(v >= 0 ==> (v as u8) == v) by (bit_vector);
        assert(v < 0 ==> (v as u8) == v + 0x100) by (bit_vector);
    }
    v as u8
}

pub fn to_i32(v: u32) -> (r: i32)
    ensures
        r == signed(v as nat, 4),
{
    proof {
        lemma_radix_values();
        assert(v < 0x8000_0000 ==> (v as i32) == v) by (bit_vector);
        assert(v >= 0x8000_0000 ==> (v as i32) == v - 0x1_0000_0000) by (bit_vector);
    }
    v as i32
}

} // verus!
