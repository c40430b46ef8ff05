//! Which multicast group carries which stream.
//!
//! The server and every client compute the same function. Groups follow from the endpoint
//! index and the key slot, so adding a key moves no other stream.

use vstd::prelude::*;

use crate::config::model::MAX_KEYS;

verus! {

/// An IPv4 address.
#[derive(Clone, Copy, Debug, PartialEq, Eq, Hash, PartialOrd, Ord, Structural)]
pub struct Ipv4Addr {
    /// The four octets, most significant first.
    pub bits: u32,
}

impl Ipv4Addr {
    pub fn new(a: u8, b: u8, c: u8, d: u8) -> (r: Self)
        ensures
            r.bits == a * 0x100_0000 + b * 0x1_0000 + c * 0x100 + d,
    {
        Ipv4Addr { bits: a as u32 * 0x100_0000 + b as u32 * 0x1_0000 + c as u32 * 0x100 + d as u32 }
    }

    /// The four octets, most significant first.
    pub fn octets(self) -> (r: [u8; 4])
        ensures
            self.bits == r@[0] * 0x100_0000 + r@[1] * 0x1_0000 + r@[2] * 0x100 + r@[3],
    {
        let n: u32 = self.bits;
        [
            (n / 0x100_0000) as u8,
            ((n / 0x1_0000) % 0x100) as u8,
            ((n / 0x100) % 0x100) as u8,
            (n % 0x100) as u8,
        ]
    }

    /// Whether this is in 224.0.0.0/4.
    pub open spec fn multicast(self) -> bool {
        224 <= self.bits / 0x100_0000 <= 239
    }

    /// Whether this is a multicast group.
    pub fn is_multicast(self) -> (r: bool)
        ensures
            r == self.multicast(),
    {
        let first: u32 = self.bits / 0x100_0000;
        224 <= first && first <= 239
    }
}

/// First group for server-to-endpoint key streams: 239.69.0.0.
pub const KEY_BASE: u32 = 0xEF45_0000;

/// First group for endpoint-to-server microphone streams: 239.69.128.0.
pub const MIC_BASE: u32 = 0xEF45_8000;

/// First group for streams allocated by index: 239.69.0.0.
pub const DEFAULT_GROUP_BASE: u32 = 0xEF45_0000;

/// How many endpoints the scheme can address without the two ranges colliding.
pub const MAX_ENDPOINTS: usize = 3276;

/// The address `n` above a base, around the end of the address space.
pub open spec fn offset_address(base: int, n: int) -> int {
    (base + n) % 0x1_0000_0000
}

/// The address `n` above a base.
pub fn offset(base: u32, n: usize) -> (r: Ipv4Addr)
    ensures
        r.bits == offset_address(base as int, n as int),
{
    let low: u32 = (n as u64 % 0x1_0000_0000) as u32;
    let sum: u64 = (base as u64 + low as u64) % 0x1_0000_0000;
    proof {
        vstd::arithmetic::div_mod::lemma_add_mod_noop_right(base as int, n as int, 0x1_0000_0000);
    }
    Ipv4Addr { bits: sum as u32 }
}

/// Allocate the multicast group for a stream index.
///
/// IPv4 multicast maps to Ethernet by the low 23 bits of the address alone. Allocating
/// from a single base keeps them distinct.
pub fn stream_group(base: Ipv4Addr, index: usize) -> (r: Ipv4Addr)
    ensures
        r.bits == offset_address(base.bits as int, index as int),
{
    offset(base.bits, index)
}

/// The number of a key stream.
pub open spec fn key_number(endpoint_index: int, slot: int) -> int {
    endpoint_index * MAX_KEYS + slot
}

/// Group carrying one key's feed from the server to its endpoint.
pub fn key_group(endpoint_index: usize, slot: u8) -> (r: Ipv4Addr)
    requires
        key_number(endpoint_index as int, slot as int) <= usize::MAX,
    ensures
        r.bits == offset_address(KEY_BASE as int, key_number(endpoint_index as int, slot as int)),
{
    offset(KEY_BASE, endpoint_index * MAX_KEYS + slot as usize)
}

/// Group carrying one endpoint's microphone to the server.
pub fn mic_group(endpoint_index: usize) -> (r: Ipv4Addr)
    ensures
        r.bits == offset_address(MIC_BASE as int, endpoint_index as int),
{
    offset(MIC_BASE, endpoint_index)
}

/// The SSRC of a key stream: a prefix, twelve bits of endpoint and four of slot.
pub open spec fn key_source(endpoint_index: int, slot: int) -> int {
    0x5157_0000 + (endpoint_index % 4096) * 16 + slot % 16
}

/// The SSRC of a microphone stream: a prefix and sixteen bits of endpoint.
pub open spec fn mic_source(endpoint_index: int) -> int {
    0x5158_0000 + endpoint_index % 65536
}

/// SSRC for a key stream. Derived rather than random, so that a restarted sender can be
/// told from a foreign one.
pub fn key_ssrc(endpoint_index: usize, slot: u8) -> (r: u32)
    ensures
        r == key_source(endpoint_index as int, slot as int),
{
    0x5157_0000 + (endpoint_index % 4096) as u32 * 16 + (slot % 16) as u32
}

/// SSRC for a microphone stream.
pub fn mic_ssrc(endpoint_index: usize) -> (r: u32)
    ensures
        r == mic_source(endpoint_index as int),
{
    0x5158_0000 + (endpoint_index % 65536) as u32
}

// What the scheme promises.

/// The part of an address that reaches the Ethernet group.
pub open spec fn low_bits(address: int) -> int {
    address % 0x80_0000
}

/// Two key streams that the scheme can address have groups of their own, on Ethernet too.
pub proof fn law_key_groups_distinct(e1: int, s1: int, e2: int, s2: int)
    requires
        0 <= e1 < MAX_ENDPOINTS,
        0 <= e2 < MAX_ENDPOINTS,
        0 <= s1 < MAX_KEYS,
        0 <= s2 < MAX_KEYS,
        (e1, s1) != (e2, s2),
    ensures
        low_bits(offset_address(KEY_BASE as int, key_number(e1, s1))) != low_bits(
            offset_address(KEY_BASE as int, key_number(e2, s2)),
        ),
{
}

/// Two microphones have groups of their own, on Ethernet too.
pub proof fn law_mic_groups_distinct(e1: int, e2: int)
    requires
        0 <= e1 < 0x8000,
        0 <= e2 < 0x8000,
        e1 != e2,
    ensures
        low_bits(offset_address(MIC_BASE as int, e1)) != low_bits(offset_address(MIC_BASE as int, e2)),
{
}

/// No key stream shares a group with a microphone, on Ethernet either.
pub proof fn law_key_and_mic_groups_apart(e1: int, s1: int, e2: int)
    requires
        0 <= e1 < MAX_ENDPOINTS,
        0 <= s1 < MAX_KEYS,
        0 <= e2 < 0x8000,
    ensures
        low_bits(offset_address(KEY_BASE as int, key_number(e1, s1))) != low_bits(
            offset_address(MIC_BASE as int, e2),
        ),
{
}

/// Every group that the scheme allocates is multicast.
pub proof fn law_groups_are_multicast(e: int, s: int, group: Ipv4Addr)
    requires
        0 <= e < MAX_ENDPOINTS,
        0 <= s < MAX_KEYS,
        group.bits == offset_address(KEY_BASE as int, key_number(e, s)) || group.bits == offset_address(
            MIC_BASE as int,
            e,
        ),
    ensures
        group.multicast(),
{
}

/// Streams allocated by index from one base keep distinct low bits.
pub proof fn law_stream_groups_distinct(base: int, i: int, j: int)
    requires
        0 <= base <= u32::MAX,
        0 <= i < 0x80_0000,
        0 <= j < 0x80_0000,
        i != j,
    ensures
        low_bits(offset_address(base, i)) != low_bits(offset_address(base, j)),
{
    lemma_low_bits(base, i);
    lemma_low_bits(base, j);
    if low_bits(base + i) == low_bits(base + j) {
        vstd::arithmetic::div_mod::lemma_mod_equivalence(base + i, base + j, 0x80_0000);
    }
}

proof fn lemma_low_bits(base: int, n: int)
    ensures
        low_bits(offset_address(base, n)) == low_bits(base + n),
{
    vstd::arithmetic::div_mod::lemma_mod_mod(base + n, 0x80_0000, 0x200);
}

/// SSRCs are unique across keys and microphones.
pub proof fn law_ssrcs_unique(e1: int, s1: int, e2: int, s2: int)
    requires
        0 <= e1 < 4096,
        0 <= e2 < 4096,
        0 <= s1 < 16,
        0 <= s2 < 16,
    ensures
        key_source(e1, s1) == key_source(e2, s2) ==> e1 == e2 && s1 == s2,
        mic_source(e1) == mic_source(e2) ==> e1 == e2,
        key_source(e1, s1) != mic_source(e2),
{
}

} // verus!
