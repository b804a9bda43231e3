//! IP packets as bytes: which family a packet is of, where its addresses
//! lie, how to replace one, and which checksums to renew after that.

use crate::ip::IpAddress;
use pnet_packet::ip::IpNextHeaderProtocol;
use vstd::prelude::*;
use vstd::slice::{slice_subrange, slice_to_vec};

verus! {

/// Length of an IPv4 header without options.
pub const IPV4_HEADER_SIZE: usize = 20;

/// Length of the IPv6 header.
pub const IPV6_HEADER_SIZE: usize = 40;

pub const PROTOCOL_TCP: u8 = 6;

pub const PROTOCOL_UDP: u8 = 17;

pub const PROTOCOL_ICMPV6: u8 = 58;

/// The 16-bit big-endian number at `at`.
pub open spec fn be16(s: Seq<u8>, at: int) -> int {
    s[at] * 0x100 + s[at + 1]
}

/// The 32-bit big-endian number at `at`.
pub open spec fn be32(s: Seq<u8>, at: int) -> int {
    be16(s, at) * 0x1_0000 + be16(s, at + 2)
}

/// The 64-bit big-endian number at `at`.
pub open spec fn be64(s: Seq<u8>, at: int) -> int {
    be32(s, at) * 0x1_0000_0000 + be32(s, at + 4)
}

/// The 128-bit big-endian number at `at`.
pub open spec fn be128(s: Seq<u8>, at: int) -> int {
    be64(s, at) * 0x1_0000_0000_0000_0000 + be64(s, at + 8)
}

/// `s` with the 16-bit number `v` written big-endian at `at`.
pub open spec fn with_be16(s: Seq<u8>, at: int, v: int) -> Seq<u8> {
    s.update(at, (v / 0x100) as u8).update(at + 1, (v % 0x100) as u8)
}

/// `s` with the 32-bit number `v` written big-endian at `at`.
pub open spec fn with_be32(s: Seq<u8>, at: int, v: int) -> Seq<u8> {
    with_be16(with_be16(s, at, v / 0x1_0000), at + 2, v % 0x1_0000)
}

/// `s` with the 64-bit number `v` written big-endian at `at`.
pub open spec fn with_be64(s: Seq<u8>, at: int, v: int) -> Seq<u8> {
    with_be32(with_be32(s, at, v / 0x1_0000_0000), at + 4, v % 0x1_0000_0000)
}

/// `s` with the 128-bit number `v` written big-endian at `at`.
pub open spec fn with_be128(s: Seq<u8>, at: int, v: int) -> Seq<u8> {
    with_be64(with_be64(s, at, v / 0x1_0000_0000_0000_0000), at + 8, v % 0x1_0000_0000_0000_0000)
}

/// The family of an IP packet.
#[derive(Clone, Copy, Debug, PartialEq, Eq, Structural)]
pub enum IpVersion {
    V4,
    V6,
}

/// The family that the bytes' first half-octet names, if the bytes are
/// long enough to hold that family's header.
pub open spec fn ip_version(s: Seq<u8>) -> Option<IpVersion> {
    if s.len() >= IPV4_HEADER_SIZE && s[0] / 16 == 4 {
        Some(IpVersion::V4)
    } else if s.len() >= IPV6_HEADER_SIZE && s[0] / 16 == 6 {
        Some(IpVersion::V6)
    } else {
        None
    }
}

/// The source address of a packet.
pub open spec fn source_of(s: Seq<u8>) -> Option<IpAddress> {
    match ip_version(s) {
        Some(IpVersion::V4) => Some(IpAddress::V4(be32(s, 12) as u32)),
        Some(IpVersion::V6) => Some(IpAddress::V6(be128(s, 8) as u128)),
        None => None,
    }
}

/// The destination address of a packet.
pub open spec fn destination_of(s: Seq<u8>) -> Option<IpAddress> {
    match ip_version(s) {
        Some(IpVersion::V4) => Some(IpAddress::V4(be32(s, 16) as u32)),
        Some(IpVersion::V6) => Some(IpAddress::V6(be128(s, 24) as u128)),
        None => None,
    }
}

/// The packet with `addr` as its source. An address of the other family
/// leaves it as it is.
pub open spec fn with_source(s: Seq<u8>, addr: IpAddress) -> Seq<u8> {
    match (ip_version(s), addr) {
        (Some(IpVersion::V4), IpAddress::V4(a)) => with_be32(s, 12, a as int),
        (Some(IpVersion::V6), IpAddress::V6(a)) => with_be128(s, 8, a as int),
        _ => s,
    }
}

/// The packet with `addr` as its destination. An address of the other
/// family leaves it as it is.
pub open spec fn with_destination(s: Seq<u8>, addr: IpAddress) -> Seq<u8> {
    match (ip_version(s), addr) {
        (Some(IpVersion::V4), IpAddress::V4(a)) => with_be32(s, 16, a as int),
        (Some(IpVersion::V6), IpAddress::V6(a)) => with_be128(s, 24, a as int),
        _ => s,
    }
}

/// Where the payload of a packet starts.
pub open spec fn payload_start(s: Seq<u8>) -> int {
    match ip_version(s) {
        Some(IpVersion::V4) => if (s[0] % 16) * 4 > 20 {
            (s[0] % 16) * 4
        } else {
            20
        },
        _ => 40,
    }
}

/// How many bytes of payload the header announces.
pub open spec fn payload_announced(s: Seq<u8>) -> int {
    match ip_version(s) {
        Some(IpVersion::V4) => if be16(s, 2) > (s[0] % 16) * 4 {
            be16(s, 2) - (s[0] % 16) * 4
        } else {
            0
        },
        _ => be16(s, 4),
    }
}

/// Where the payload of a packet ends: where the header says, or with the
/// bytes if they end before that.
pub open spec fn payload_end(s: Seq<u8>) -> int {
    if s.len() <= payload_start(s) {
        payload_start(s)
    } else if payload_start(s) + payload_announced(s) < s.len() {
        payload_start(s) + payload_announced(s)
    } else {
        s.len() as int
    }
}

/// The number of the protocol that the payload belongs to.
pub open spec fn protocol_of(s: Seq<u8>) -> u8 {
    match ip_version(s) {
        Some(IpVersion::V4) => s[9],
        _ => s[6],
    }
}

/// How many leading bytes the IPv4 header checksum covers.
pub open spec fn checked_header_len(s: Seq<u8>) -> int {
    if (s[0] % 16) * 4 < 20 {
        20
    } else if (s[0] % 16) * 4 > s.len() {
        s.len() as int
    } else {
        (s[0] % 16) * 4
    }
}

/// The Internet checksum of `data` with word `skipword` left out, as
/// `pnet_packet::util::checksum` computes it.
pub uninterp spec fn internet_checksum(data: Seq<u8>, skipword: usize) -> u16;

/// The checksum of a segment carried over IPv4, with word `skipword` of
/// the segment left out, as `pnet_packet::util::ipv4_checksum` computes
/// it.
pub uninterp spec fn ipv4_segment_checksum(
    data: Seq<u8>,
    skipword: usize,
    source: u32,
    destination: u32,
    protocol: u8,
) -> u16;

/// The checksum of a segment carried over IPv6, with word `skipword` of
/// the segment left out, as `pnet_packet::util::ipv6_checksum` computes
/// it.
pub uninterp spec fn ipv6_segment_checksum(
    data: Seq<u8>,
    skipword: usize,
    source: u128,
    destination: u128,
    protocol: u8,
) -> u16;

/// `pnet_packet::util::checksum`.
#[verifier::external_body]
fn util_checksum(data: &[u8], skipword: usize) -> (sum: u16)
    requires
        data@.len() <= 0xffff,
    ensures
        sum == internet_checksum(data@, skipword),
{
    pnet_packet::util::checksum(data, skipword)
}

/// `pnet_packet::util::ipv4_checksum`, with no extra data.
#[verifier::external_body]
fn util_ipv4_checksum(data: &[u8], skipword: usize, source: u32, destination: u32, protocol: u8) -> (sum: u16)
    requires
        data@.len() <= 0xffff,
    ensures
        sum == ipv4_segment_checksum(data@, skipword, source, destination, protocol),
{
    let protocol = IpNextHeaderProtocol(protocol);
    pnet_packet::util::ipv4_checksum(data, skipword, &[], &source.into(), &destination.into(), protocol)
}

/// `pnet_packet::util::ipv6_checksum`, with no extra data.
#[verifier::external_body]
fn util_ipv6_checksum(data: &[u8], skipword: usize, source: u128, destination: u128, protocol: u8) -> (sum: u16)
    requires
        data@.len() <= 0xffff,
    ensures
        sum == ipv6_segment_checksum(data@, skipword, source, destination, protocol),
{
    let protocol = IpNextHeaderProtocol(protocol);
    pnet_packet::util::ipv6_checksum(data, skipword, &[], &source.into(), &destination.into(), protocol)
}

/// The word of a segment that holds its checksum, for the protocols whose
/// checksum covers the addresses: TCP and UDP, and ICMPv6 over IPv6. The
/// segment has to be long enough for the protocol's header.
pub open spec fn checksum_word(version: IpVersion, protocol: u8, segment_len: int) -> Option<usize> {
    if protocol == PROTOCOL_UDP && segment_len >= 8 {
        Some(3usize)
    } else if protocol == PROTOCOL_TCP && segment_len >= 20 {
        Some(8usize)
    } else if protocol == PROTOCOL_ICMPV6 && version == IpVersion::V6 && segment_len >= 4 {
        Some(1usize)
    } else {
        None
    }
}

/// The packet with the checksum of its payload renewed, where the
/// payload's protocol has one that covers the addresses.
pub open spec fn with_segment_checksum(s: Seq<u8>) -> Seq<u8> {
    let start = payload_start(s);
    let end = payload_end(s);
    let segment = s.subrange(start, end);
    match ip_version(s) {
        Some(version) => match checksum_word(version, protocol_of(s), end - start) {
            Some(word) => {
                let sum = match version {
                    IpVersion::V4 => ipv4_segment_checksum(
                        segment,
                        word,
                        be32(s, 12) as u32,
                        be32(s, 16) as u32,
                        protocol_of(s),
                    ),
                    IpVersion::V6 => ipv6_segment_checksum(
                        segment,
                        word,
                        be128(s, 8) as u128,
                        be128(s, 24) as u128,
                        protocol_of(s),
                    ),
                };
                with_be16(s, start + 2 * word, sum as int)
            },
            None => s,
        },
        None => s,
    }
}

/// The packet with its IPv4 header checksum renewed. IPv6 has none.
pub open spec fn with_header_checksum(s: Seq<u8>) -> Seq<u8> {
    match ip_version(s) {
        Some(IpVersion::V4) => with_be16(
            s,
            10,
            internet_checksum(s.subrange(0, checked_header_len(s)), 5) as int,
        ),
        _ => s,
    }
}

/// The packet with every checksum renewed that covers its addresses.
pub open spec fn with_checksums(s: Seq<u8>) -> Seq<u8> {
    with_header_checksum(with_segment_checksum(s))
}

/// Reads a 16-bit big-endian number.
pub fn read_be16(s: &[u8], at: usize) -> (v: u16)
    requires
        at + 2 <= s.len(),
    ensures
        v == be16(s@, at as int),
{
    (s[at] as u16) * 0x100 + (s[at + 1] as u16)
}

/// Reads a 32-bit big-endian number.
pub fn read_be32(s: &[u8], at: usize) -> (v: u32)
    requires
        at + 4 <= s.len(),
    ensures
        v == be32(s@, at as int),
{
    (read_be16(s, at) as u32) * 0x1_0000 + (read_be16(s, at + 2) as u32)
}

/// Reads a 64-bit big-endian number.
pub fn read_be64(s: &[u8], at: usize) -> (v: u64)
    requires
        at + 8 <= s.len(),
    ensures
        v == be64(s@, at as int),
{
    (read_be32(s, at) as u64) * 0x1_0000_0000 + (read_be32(s, at + 4) as u64)
}

/// Reads a 128-bit big-endian number.
pub fn read_be128(s: &[u8], at: usize) -> (v: u128)
    requires
        at + 16 <= s.len(),
    ensures
        v == be128(s@, at as int),
{
    (read_be64(s, at) as u128) * 0x1_0000_0000_0000_0000 + (read_be64(s, at + 8) as u128)
}

/// Writes a 16-bit number big-endian.
pub fn write_be16(s: &mut Vec<u8>, at: usize, v: u16)
    requires
        at + 2 <= old(s).len(),
    ensures
        final(s)@ == with_be16(old(s)@, at as int, v as int),
{
    s.set(at, (v / 0x100) as u8);
    s.set(at + 1, (v % 0x100) as u8);
}

/// Writes a 32-bit number big-endian.
pub fn write_be32(s: &mut Vec<u8>, at: usize, v: u32)
    requires
        at + 4 <= old(s).len(),
    ensures
        final(s)@ == with_be32(old(s)@, at as int, v as int),
{
    write_be16(s, at, (v / 0x1_0000) as u16);
    write_be16(s, at + 2, (v % 0x1_0000) as u16);
}

/// Writes a 64-bit number big-endian.
pub fn write_be64(s: &mut Vec<u8>, at: usize, v: u64)
    requires
        at + 8 <= old(s).len(),
    ensures
        final(s)@ == with_be64(old(s)@, at as int, v as int),
{
    write_be32(s, at, (v / 0x1_0000_0000) as u32);
    write_be32(s, at + 4, (v % 0x1_0000_0000) as u32);
}

/// Writes a 128-bit number big-endian.
pub fn write_be128(s: &mut Vec<u8>, at: usize, v: u128)
    requires
        at + 16 <= old(s).len(),
    ensures
        final(s)@ == with_be128(old(s)@, at as int, v as int),
{
    write_be64(s, at, (v / 0x1_0000_0000_0000_0000) as u64);
    write_be64(s, at + 8, (v % 0x1_0000_0000_0000_0000) as u64);
}

/// The family of a packet: see [`ip_version`].
pub fn version_of(s: &[u8]) -> (v: Option<IpVersion>)
    ensures
        v == ip_version(s@),
{
    if s.len() >= IPV4_HEADER_SIZE && s[0] / 16 == 4 {
        Some(IpVersion::V4)
    } else if s.len() >= IPV6_HEADER_SIZE && s[0] / 16 == 6 {
        Some(IpVersion::V6)
    } else {
        None
    }
}

/// The source address of a packet.
pub fn source(s: &[u8]) -> (a: Option<IpAddress>)
    ensures
        a == source_of(s@),
{
    match version_of(s) {
        Some(IpVersion::V4) => Some(IpAddress::V4(read_be32(s, 12))),
        Some(IpVersion::V6) => Some(IpAddress::V6(read_be128(s, 8))),
        None => None,
    }
}

/// The destination address of a packet.
pub fn destination(s: &[u8]) -> (a: Option<IpAddress>)
    ensures
        a == destination_of(s@),
{
    match version_of(s) {
        Some(IpVersion::V4) => Some(IpAddress::V4(read_be32(s, 16))),
        Some(IpVersion::V6) => Some(IpAddress::V6(read_be128(s, 24))),
        None => None,
    }
}

/// Whether `t` is `s` but for the `n` bytes at `at`.
pub open spec fn same_but(s: Seq<u8>, t: Seq<u8>, at: int, n: int) -> bool {
    &&& t.len() == s.len()
    &&& forall|i: int| 0 <= i < s.len() && !(at <= i < at + n) ==> #[trigger] t[i] == s[i]
}

/// Two byte strings that agree on the 16 bytes at `at` spell the same
/// number there, and so for the shorter numbers.
pub proof fn lemma_be_agree(s: Seq<u8>, t: Seq<u8>, at: int)
    ensures
        s[at] == t[at] && s[at + 1] == t[at + 1] ==> be16(s, at) == be16(t, at),
        (forall|i: int| at <= i < at + 4 ==> s[i] == t[i]) ==> be32(s, at) == be32(t, at),
        (forall|i: int| at <= i < at + 8 ==> s[i] == t[i]) ==> be64(s, at) == be64(t, at),
        (forall|i: int| at <= i < at + 16 ==> s[i] == t[i]) ==> be128(s, at) == be128(t, at),
{
    if forall|i: int| at <= i < at + 4 ==> s[i] == t[i] {
        assert(be16(s, at) == be16(t, at));
        assert(be16(s, at + 2) == be16(t, at + 2));
    }
    if forall|i: int| at <= i < at + 8 ==> s[i] == t[i] {
        assert(be16(s, at) == be16(t, at));
        assert(be16(s, at + 2) == be16(t, at + 2));
        assert(be16(s, at + 4) == be16(t, at + 4));
        assert(be16(s, at + 6) == be16(t, at + 6));
    }
    if forall|i: int| at <= i < at + 16 ==> s[i] == t[i] {
        assert(be16(s, at) == be16(t, at));
        assert(be16(s, at + 2) == be16(t, at + 2));
        assert(be16(s, at + 4) == be16(t, at + 4));
        assert(be16(s, at + 6) == be16(t, at + 6));
        assert(be16(s, at + 8) == be16(t, at + 8));
        assert(be16(s, at + 10) == be16(t, at + 10));
        assert(be16(s, at + 12) == be16(t, at + 12));
        assert(be16(s, at + 14) == be16(t, at + 14));
    }
}

/// A 16-bit number written is the number read, and no other byte moves.
pub proof fn lemma_with_be16(s: Seq<u8>, at: int, v: int)
    requires
        0 <= at,
        at + 2 <= s.len(),
        0 <= v < 0x1_0000,
    ensures
        be16(with_be16(s, at, v), at) == v,
        same_but(s, with_be16(s, at, v), at, 2),
{
}

/// A 32-bit number written is the number read, and no other byte moves.
pub proof fn lemma_with_be32(s: Seq<u8>, at: int, v: int)
    requires
        0 <= at,
        at + 4 <= s.len(),
        0 <= v < 0x1_0000_0000,
    ensures
        be32(with_be32(s, at, v), at) == v,
        same_but(s, with_be32(s, at, v), at, 4),
{
    let hi = v / 0x1_0000;
    let lo = v % 0x1_0000;
    let mid = with_be16(s, at, hi);
    let out = with_be16(mid, at + 2, lo);
    lemma_with_be16(s, at, hi);
    lemma_with_be16(mid, at + 2, lo);
    assert(out[at] == mid[at] && out[at + 1] == mid[at + 1]);
    lemma_be_agree(out, mid, at);
}

/// A 64-bit number written is the number read, and no other byte moves.
pub proof fn lemma_with_be64(s: Seq<u8>, at: int, v: int)
    requires
        0 <= at,
        at + 8 <= s.len(),
        0 <= v < 0x1_0000_0000_0000_0000,
    ensures
        be64(with_be64(s, at, v), at) == v,
        same_but(s, with_be64(s, at, v), at, 8),
{
    let hi = v / 0x1_0000_0000;
    let lo = v % 0x1_0000_0000;
    let mid = with_be32(s, at, hi);
    let out = with_be32(mid, at + 4, lo);
    lemma_with_be32(s, at, hi);
    lemma_with_be32(mid, at + 4, lo);
    assert forall|i: int| at <= i < at + 4 implies out[i] == mid[i] by {}
    lemma_be_agree(out, mid, at);
}

/// A 128-bit number written is the number read, and no other byte moves.
pub proof fn lemma_with_be128(s: Seq<u8>, at: int, v: int)
    requires
        0 <= at,
        at + 16 <= s.len(),
        0 <= v < 0x1_0000_0000_0000_0000_0000_0000_0000_0000,
    ensures
        be128(with_be128(s, at, v), at) == v,
        same_but(s, with_be128(s, at, v), at, 16),
{
    let hi = v / 0x1_0000_0000_0000_0000;
    let lo = v % 0x1_0000_0000_0000_0000;
    let mid = with_be64(s, at, hi);
    let out = with_be64(mid, at + 8, lo);
    lemma_with_be64(s, at, hi);
    lemma_with_be64(mid, at + 8, lo);
    assert forall|i: int| at <= i < at + 8 implies out[i] == mid[i] by {}
    lemma_be_agree(out, mid, at);
}

/// Writing an address and reading it again gives the address; the other
/// address, the family and the length stay.
pub proof fn lemma_address_round_trip(s: Seq<u8>, addr: IpAddress)
    requires
        ip_version(s) is Some,
        (ip_version(s) == Some(IpVersion::V4)) == (addr is V4),
    ensures
        source_of(with_source(s, addr)) == Some(addr),
        destination_of(with_destination(s, addr)) == Some(addr),
        destination_of(with_source(s, addr)) == destination_of(s),
        source_of(with_destination(s, addr)) == source_of(s),
        ip_version(with_source(s, addr)) == ip_version(s),
        ip_version(with_destination(s, addr)) == ip_version(s),
        with_source(s, addr).len() == s.len(),
        with_destination(s, addr).len() == s.len(),
{
    let by_src = with_source(s, addr);
    let by_dst = with_destination(s, addr);
    match addr {
        IpAddress::V4(a) => {
            lemma_with_be32(s, 12, a as int);
            lemma_with_be32(s, 16, a as int);
            assert(by_src[0] == s[0] && by_dst[0] == s[0]);
            assert forall|i: int| 16 <= i < 20 implies by_src[i] == s[i] by {}
            assert forall|i: int| 12 <= i < 16 implies by_dst[i] == s[i] by {}
            lemma_be_agree(by_src, s, 16);
            lemma_be_agree(by_dst, s, 12);
        },
        IpAddress::V6(a) => {
            lemma_with_be128(s, 8, a as int);
            lemma_with_be128(s, 24, a as int);
            assert(by_src[0] == s[0] && by_dst[0] == s[0]);
            assert forall|i: int| 24 <= i < 40 implies by_src[i] == s[i] by {}
            assert forall|i: int| 8 <= i < 24 implies by_dst[i] == s[i] by {}
            lemma_be_agree(by_src, s, 24);
            lemma_be_agree(by_dst, s, 8);
        },
    }
}

/// Whether byte `i` of a packet belongs to a checksum that is renewed
/// after an address was replaced: the IPv4 header checksum, or the
/// checksum of the payload where its protocol has one that covers the
/// addresses.
pub open spec fn in_checksum(s: Seq<u8>, i: int) -> bool {
    match ip_version(s) {
        Some(version) => {
            ||| version == IpVersion::V4 && 10 <= i < 12
            ||| checksum_word(version, protocol_of(s), payload_end(s) - payload_start(s)) matches Some(word)
                && payload_start(s) + 2 * word <= i < payload_start(s) + 2 * word + 2
        },
        None => false,
    }
}

/// Whether byte `i` of a packet belongs to its source address.
pub open spec fn in_source(s: Seq<u8>, i: int) -> bool {
    match ip_version(s) {
        Some(IpVersion::V4) => 12 <= i < 16,
        Some(IpVersion::V6) => 8 <= i < 24,
        None => false,
    }
}

/// Whether byte `i` of a packet belongs to its destination address.
pub open spec fn in_destination(s: Seq<u8>, i: int) -> bool {
    match ip_version(s) {
        Some(IpVersion::V4) => 16 <= i < 20,
        Some(IpVersion::V6) => 24 <= i < 40,
        None => false,
    }
}

/// Renewing the checksums of a packet touches the checksums and nothing
/// else.
pub proof fn lemma_checksums_touch_checksums_only(s: Seq<u8>)
    requires
        ip_version(s) is Some,
    ensures
        with_checksums(s).len() == s.len(),
        forall|i: int| 0 <= i < s.len() && !in_checksum(s, i) ==> #[trigger] with_checksums(s)[i] == s[i],
{
    let version = ip_version(s)->0;
    let t = with_segment_checksum(s);
    let start = payload_start(s);
    let end = payload_end(s);
    match checksum_word(version, protocol_of(s), end - start) {
        Some(word) => {
            let sum = match version {
                IpVersion::V4 => ipv4_segment_checksum(
                    s.subrange(start, end),
                    word,
                    be32(s, 12) as u32,
                    be32(s, 16) as u32,
                    protocol_of(s),
                ),
                IpVersion::V6 => ipv6_segment_checksum(
                    s.subrange(start, end),
                    word,
                    be128(s, 8) as u128,
                    be128(s, 24) as u128,
                    protocol_of(s),
                ),
            };
            lemma_with_be16(s, start + 2 * word, sum as int);
        },
        None => {},
    }
    assert(t.len() == s.len());
    assert(ip_version(t) == ip_version(s));
    if version == IpVersion::V4 {
        lemma_with_be16(t, 10, internet_checksum(t.subrange(0, checked_header_len(t)), 5) as int);
    }
}

/// Replacing the destination of a packet and renewing its checksums
/// touches the destination and the checksums and nothing else: every
/// other header field and the payload stay as they were.
pub proof fn lemma_new_destination_keeps_the_rest(s: Seq<u8>, addr: IpAddress)
    requires
        ip_version(s) is Some,
    ensures
        with_checksums(with_destination(s, addr)).len() == s.len(),
        forall|i: int|
            0 <= i < s.len() && !in_destination(s, i) && !in_checksum(s, i) ==> #[trigger] with_checksums(
                with_destination(s, addr),
            )[i] == s[i],
{
    let t = with_destination(s, addr);
    match (ip_version(s), addr) {
        (Some(IpVersion::V4), IpAddress::V4(a)) => {
            lemma_with_be32(s, 16, a as int);
        },
        (Some(IpVersion::V6), IpAddress::V6(a)) => {
            lemma_with_be128(s, 24, a as int);
        },
        _ => {},
    }
    assert(t.len() == s.len());
    assert(t[0] == s[0]);
    lemma_checksum_places(s, t);
    lemma_checksums_touch_checksums_only(t);
}

/// Replacing the source of a packet and renewing its checksums touches
/// the source and the checksums and nothing else: every other header
/// field and the payload stay as they were.
pub proof fn lemma_new_source_keeps_the_rest(s: Seq<u8>, addr: IpAddress)
    requires
        ip_version(s) is Some,
    ensures
        with_checksums(with_source(s, addr)).len() == s.len(),
        forall|i: int|
            0 <= i < s.len() && !in_source(s, i) && !in_checksum(s, i) ==> #[trigger] with_checksums(
                with_source(s, addr),
            )[i] == s[i],
{
    let t = with_source(s, addr);
    match (ip_version(s), addr) {
        (Some(IpVersion::V4), IpAddress::V4(a)) => {
            lemma_with_be32(s, 12, a as int);
        },
        (Some(IpVersion::V6), IpAddress::V6(a)) => {
            lemma_with_be128(s, 8, a as int);
        },
        _ => {},
    }
    assert(t.len() == s.len());
    assert(t[0] == s[0]);
    lemma_checksum_places(s, t);
    lemma_checksums_touch_checksums_only(t);
}

/// Two packets of one length that agree on the header fields before the
/// addresses have their checksums in the same places.
proof fn lemma_checksum_places(s: Seq<u8>, t: Seq<u8>)
    requires
        ip_version(s) is Some,
        t.len() == s.len(),
        forall|i: int| 0 <= i < 8 ==> t[i] == s[i],
        ip_version(s) == Some(IpVersion::V4) ==> t[9] == s[9],
    ensures
        ip_version(t) == ip_version(s),
        forall|i: int| in_checksum(t, i) == in_checksum(s, i),
{
    assert(t[0] == s[0] && t[2] == s[2] && t[3] == s[3] && t[4] == s[4] && t[5] == s[5] && t[6] == s[6]);
    assert(be16(t, 2) == be16(s, 2));
    assert(be16(t, 4) == be16(s, 4));
    assert(payload_start(t) == payload_start(s));
    assert(payload_end(t) == payload_end(s));
    assert(protocol_of(t) == protocol_of(s));
}

/// Renewing checksums keeps family, length and addresses.
pub proof fn lemma_checksums_keep_addresses(s: Seq<u8>)
    requires
        ip_version(s) is Some,
    ensures
        with_checksums(s).len() == s.len(),
        ip_version(with_checksums(s)) == ip_version(s),
        source_of(with_checksums(s)) == source_of(s),
        destination_of(with_checksums(s)) == destination_of(s),
{
}

/// An IP packet that the library owns and may rewrite.
pub struct MutableIpPacket {
    bytes: Vec<u8>,
}

impl View for MutableIpPacket {
    type V = Seq<u8>;

    closed spec fn view(&self) -> Seq<u8> {
        self.bytes@
    }
}

impl MutableIpPacket {
    /// The bytes are an IPv4 or an IPv6 packet.
    pub open spec fn wf(&self) -> bool {
        ip_version(self@) is Some
    }

    /// A copy of `data` as a packet, if `data` is one.
    pub fn new(data: &[u8]) -> (r: Option<MutableIpPacket>)
        ensures
            match r {
                Some(p) => p@ == data@ && p.wf(),
                None => ip_version(data@) is None,
            },
    {
        match version_of(data) {
            Some(_) => Some(MutableIpPacket { bytes: slice_to_vec(data) }),
            None => None,
        }
    }

    /// `bytes` as a packet, if they are one; else `bytes` again.
    pub fn owned(bytes: Vec<u8>) -> (r: Result<MutableIpPacket, Vec<u8>>)
        ensures
            match r {
                Ok(p) => p@ == bytes@ && p.wf(),
                Err(b) => b@ == bytes@ && ip_version(bytes@) is None,
            },
    {
        match version_of(bytes.as_slice()) {
            Some(_) => Ok(MutableIpPacket { bytes }),
            None => Err(bytes),
        }
    }

    /// The packet's bytes.
    pub fn packet(&self) -> (r: &[u8])
        ensures
            r@ == self@,
    {
        self.bytes.as_slice()
    }

    /// The packet's bytes, given up.
    pub fn into_bytes(self) -> (r: Vec<u8>)
        ensures
            r@ == self@,
    {
        self.bytes
    }

    pub fn len(&self) -> (n: usize)
        ensures
            n == self@.len(),
    {
        self.bytes.len()
    }

    pub fn version(&self) -> (v: IpVersion)
        requires
            self.wf(),
        ensures
            Some(v) == ip_version(self@),
    {
        match version_of(self.bytes.as_slice()) {
            Some(v) => v,
            None => IpVersion::V4,
        }
    }

    pub fn source(&self) -> (a: IpAddress)
        requires
            self.wf(),
        ensures
            Some(a) == source_of(self@),
    {
        match source(self.bytes.as_slice()) {
            Some(a) => a,
            None => IpAddress::V4(0),
        }
    }

    pub fn destination(&self) -> (a: IpAddress)
        requires
            self.wf(),
        ensures
            Some(a) == destination_of(self@),
    {
        match destination(self.bytes.as_slice()) {
            Some(a) => a,
            None => IpAddress::V4(0),
        }
    }

    /// Makes `addr` the source, if it is of the packet's family.
    pub fn set_src(&mut self, addr: IpAddress)
        requires
            old(self).wf(),
        ensures
            final(self)@ == with_source(old(self)@, addr),
            final(self).wf(),
    {
        match (self.version(), addr) {
            (IpVersion::V4, IpAddress::V4(a)) => write_be32(&mut self.bytes, 12, a),
            (IpVersion::V6, IpAddress::V6(a)) => write_be128(&mut self.bytes, 8, a),
            _ => {},
        }
    }

    /// Makes `addr` the destination, if it is of the packet's family.
    pub fn set_dst(&mut self, addr: IpAddress)
        requires
            old(self).wf(),
        ensures
            final(self)@ == with_destination(old(self)@, addr),
            final(self).wf(),
    {
        match (self.version(), addr) {
            (IpVersion::V4, IpAddress::V4(a)) => write_be32(&mut self.bytes, 16, a),
            (IpVersion::V6, IpAddress::V6(a)) => write_be128(&mut self.bytes, 24, a),
            _ => {},
        }
    }

    /// Renews the checksum of the payload, where its protocol has one
    /// that covers the addresses.
    fn set_segment_checksum(&mut self)
        requires
            old(self).wf(),
        ensures
            final(self)@ == with_segment_checksum(old(self)@),
            final(self).wf(),
    {
        let version = self.version();
        let len = self.bytes.len();
        let first = self.bytes[0];
        let (start, announced, protocol): (usize, usize, u8) = match version {
            IpVersion::V4 => {
                let header: usize = (first % 16) as usize * 4;
                let total: usize = read_be16(self.bytes.as_slice(), 2) as usize;
                (
                    if header > 20 {
                        header
                    } else {
                        20
                    },
                    if total > header {
                        total - header
                    } else {
                        0
                    },
                    self.bytes[9],
                )
            },
            IpVersion::V6 => (40, read_be16(self.bytes.as_slice(), 4) as usize, self.bytes[6]),
        };
        let end: usize = if len <= start {
            start
        } else if start + announced < len {
            start + announced
        } else {
            len
        };
        let word: usize = if protocol == PROTOCOL_UDP && end - start >= 8 {
            3
        } else if protocol == PROTOCOL_TCP && end - start >= 20 {
            8
        } else if protocol == PROTOCOL_ICMPV6 && version == IpVersion::V6 && end - start >= 4 {
            1
        } else {
            return ;
        };
        let sum = match version {
            IpVersion::V4 => util_ipv4_checksum(
                slice_subrange(self.bytes.as_slice(), start, end),
                word,
                read_be32(self.bytes.as_slice(), 12),
                read_be32(self.bytes.as_slice(), 16),
                protocol,
            ),
            IpVersion::V6 => util_ipv6_checksum(
                slice_subrange(self.bytes.as_slice(), start, end),
                word,
                read_be128(self.bytes.as_slice(), 8),
                read_be128(self.bytes.as_slice(), 24),
                protocol,
            ),
        };
        write_be16(&mut self.bytes, start + 2 * word, sum);
    }

    /// Renews the IPv4 header checksum.
    fn set_header_checksum(&mut self)
        requires
            old(self).wf(),
        ensures
            final(self)@ == with_header_checksum(old(self)@),
            final(self).wf(),
    {
        if self.version() == IpVersion::V4 {
            let len = self.bytes.len();
            let header: usize = (self.bytes[0] % 16) as usize * 4;
            let covered: usize = if header < 20 {
                20
            } else if header > len {
                len
            } else {
                header
            };
            let sum = util_checksum(slice_subrange(self.bytes.as_slice(), 0, covered), 5);
            write_be16(&mut self.bytes, 10, sum);
        }
    }

    /// Renews every checksum that covers the packet's addresses.
    pub fn update_checksum(&mut self)
        requires
            old(self).wf(),
        ensures
            final(self)@ == with_checksums(old(self)@),
            final(self).wf(),
    {
        self.set_segment_checksum();
        self.set_header_checksum();
    }
}

} // verus!
