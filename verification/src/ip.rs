//! IP addresses and network prefixes as plain integers.

use ip_network::{Ipv4Network, Ipv6Network};
use vstd::prelude::*;

verus! {

/// An IPv4 or IPv6 address, held as the integer its octets spell in
/// network byte order.
#[derive(Clone, Copy, Debug, PartialEq, Eq, Structural, Hash)]
pub enum IpAddress {
    V4(u32),
    V6(u128),
}

impl IpAddress {
    pub fn is_ipv4(&self) -> (b: bool)
        ensures
            b == (*self is V4),
    {
        match self {
            IpAddress::V4(_) => true,
            IpAddress::V6(_) => false,
        }
    }

    pub fn is_ipv6(&self) -> (b: bool)
        ensures
            b == (*self is V6),
    {
        !self.is_ipv4()
    }

    /// Whether two addresses belong to the same family.
    pub open spec fn same_family(self, other: IpAddress) -> bool {
        (self is V4) == (other is V4)
    }
}

/// The IPv4 netmask with `len` leading one bits.
pub open spec fn mask_v4(len: u8) -> u32 {
    if len == 0 {
        0u32
    } else {
        !0u32 << ((32 - len) as u32)
    }
}

/// The IPv6 netmask with `len` leading one bits.
pub open spec fn mask_v6(len: u8) -> u128 {
    if len == 0 {
        0u128
    } else {
        !0u128 << ((128 - len) as u128)
    }
}

/// A network: its first address and the number of leading bits that
/// every address in it shares.
#[derive(Clone, Copy, Debug, PartialEq, Eq, Structural, Hash)]
pub struct IpPrefix {
    pub addr: IpAddress,
    pub len: u8,
}

impl IpPrefix {
    /// The length fits the family and no bit is set past it.
    pub open spec fn wf(self) -> bool {
        match self.addr {
            IpAddress::V4(a) => self.len <= 32 && a & mask_v4(self.len) == a,
            IpAddress::V6(a) => self.len <= 128 && a & mask_v6(self.len) == a,
        }
    }

    /// Whether `ip` lies in this network. Addresses of the other family
    /// never do.
    pub open spec fn covers(self, ip: IpAddress) -> bool {
        match (self.addr, ip) {
            (IpAddress::V4(n), IpAddress::V4(a)) => a & mask_v4(self.len) == n,
            (IpAddress::V6(n), IpAddress::V6(a)) => a & mask_v6(self.len) == n,
            _ => false,
        }
    }

    /// The network of `len` leading bits that starts at `addr`, or `None`
    /// when `len` is too long for the family or `addr` has a bit set
    /// past it.
    pub fn new(addr: IpAddress, len: u8) -> (r: Option<IpPrefix>)
        ensures
            r == if (IpPrefix { addr, len }).wf() {
                Some(IpPrefix { addr, len })
            } else {
                None
            },
    {
        match addr {
            IpAddress::V4(a) => {
                if len > 32 {
                    return None;
                }
                let mask: u32 = if len == 0 {
                    0
                } else {
                    !0u32 << ((32 - len) as u32)
                };
                if a & mask != a {
                    return None;
                }
            },
            IpAddress::V6(a) => {
                if len > 128 {
                    return None;
                }
                let mask: u128 = if len == 0 {
                    0
                } else {
                    !0u128 << ((128 - len) as u128)
                };
                if a & mask != a {
                    return None;
                }
            },
        }
        Some(IpPrefix { addr, len })
    }

    /// Whether `ip` lies in this network.
    pub fn contains(&self, ip: IpAddress) -> (b: bool)
        requires
            self.wf(),
        ensures
            b == self.covers(ip),
    {
        match (self.addr, ip) {
            (IpAddress::V4(n), IpAddress::V4(a)) => v4_network_contains(n, self.len, a),
            (IpAddress::V6(n), IpAddress::V6(a)) => v6_network_contains(n, self.len, a),
            _ => false,
        }
    }

    /// The network that holds `addr` alone.
    pub fn host(addr: IpAddress) -> (r: IpPrefix)
        ensures
            r.addr == addr,
            r.len == (if addr is V4 { 32u8 } else { 128u8 }),
            r.wf(),
            forall|ip: IpAddress| r.covers(ip) <==> ip == addr,
    {
        let len: u8 = match addr {
            IpAddress::V4(_) => 32,
            IpAddress::V6(_) => 128,
        };
        proof {
            lemma_full_masks();
        }
        IpPrefix { addr, len }
    }
}

/// `Ipv4Network::contains`: the address, cut to the netmask, is the
/// network's own address.
#[verifier::external_body]
fn v4_network_contains(network: u32, len: u8, ip: u32) -> (b: bool)
    requires
        (IpPrefix { addr: IpAddress::V4(network), len }).wf(),
    ensures
        b == (ip & mask_v4(len) == network),
{
    Ipv4Network::new(network.into(), len).unwrap().contains(ip.into())
}

/// `Ipv6Network::contains`: the address, cut to the netmask, is the
/// network's own address.
#[verifier::external_body]
fn v6_network_contains(network: u128, len: u8, ip: u128) -> (b: bool)
    requires
        (IpPrefix { addr: IpAddress::V6(network), len }).wf(),
    ensures
        b == (ip & mask_v6(len) == network),
{
    Ipv6Network::new(network.into(), len).unwrap().contains(ip.into())
}

/// A full-length mask keeps every bit.
pub proof fn lemma_full_masks()
    ensures
        forall|a: u32| #[trigger] (a & mask_v4(32)) == a,
        forall|a: u128| #[trigger] (a & mask_v6(128)) == a,
{
    assert(mask_v4(32) == !0u32) by {
        assert(!0u32 << 0u32 == !0u32) by (bit_vector);
    }
    assert(mask_v6(128) == !0u128) by {
        assert(!0u128 << 0u128 == !0u128) by (bit_vector);
    }
    assert forall|a: u32| #[trigger] (a & mask_v4(32)) == a by {
        assert(a & !0u32 == a) by (bit_vector);
    }
    assert forall|a: u128| #[trigger] (a & mask_v6(128)) == a by {
        assert(a & !0u128 == a) by (bit_vector);
    }
}

} // verus!
