//! Resources: the destinations a peer can be granted access to.

use crate::ip::{IpAddress, IpPrefix};
use crate::time::Timestamp;
use vstd::prelude::*;
use vstd::string::*;

verus! {

/// The stable identity of a resource.
pub type ResourceId = u128;

/// A resource reached by name. `address` is the name, optionally followed
/// by a colon and a port; `ipv4` and `ipv6` are the addresses assigned to
/// stand for it inside the tunnel.
#[derive(Debug)]
pub struct ResourceDescriptionDns {
    pub id: ResourceId,
    pub address: String,
    pub ipv4: u32,
    pub ipv6: u128,
    pub name: String,
}

/// A resource that is a whole network.
#[derive(Debug)]
pub struct ResourceDescriptionCidr {
    pub id: ResourceId,
    pub address: IpPrefix,
    pub name: String,
}

#[derive(Debug)]
pub enum ResourceDescription {
    Dns(ResourceDescriptionDns),
    Cidr(ResourceDescriptionCidr),
}

/// A granted resource and the instant the grant ends.
pub type ExpiringResource = (ResourceDescription, Timestamp);

impl Clone for ResourceDescriptionDns {
    fn clone(&self) -> (r: Self)
        ensures
            r == *self,
    {
        ResourceDescriptionDns {
            id: self.id,
            address: self.address.clone(),
            ipv4: self.ipv4,
            ipv6: self.ipv6,
            name: self.name.clone(),
        }
    }
}

impl Clone for ResourceDescriptionCidr {
    fn clone(&self) -> (r: Self)
        ensures
            r == *self,
    {
        ResourceDescriptionCidr { id: self.id, address: self.address, name: self.name.clone() }
    }
}

impl Clone for ResourceDescription {
    fn clone(&self) -> (r: Self)
        ensures
            r == *self,
    {
        match self {
            ResourceDescription::Dns(d) => ResourceDescription::Dns(d.clone()),
            ResourceDescription::Cidr(c) => ResourceDescription::Cidr(c.clone()),
        }
    }
}

impl ResourceDescription {
    /// The identity of the resource.
    pub open spec fn spec_id(&self) -> ResourceId {
        match *self {
            ResourceDescription::Dns(d) => d.id,
            ResourceDescription::Cidr(c) => c.id,
        }
    }

    #[verifier::when_used_as_spec(spec_id)]
    pub fn id(&self) -> (r: ResourceId)
        ensures
            r == self.spec_id(),
    {
        match self {
            ResourceDescription::Dns(d) => d.id,
            ResourceDescription::Cidr(c) => c.id,
        }
    }

    /// A network resource names a valid network.
    pub open spec fn wf(self) -> bool {
        match self {
            ResourceDescription::Dns(_) => true,
            ResourceDescription::Cidr(c) => c.address.wf(),
        }
    }

    /// The number of leading bits by which the resource claims `ip`, if
    /// it does: the netmask of a network resource that covers `ip`, the
    /// full length for a resource reached by name whose assigned address
    /// of that family is `ip`.
    pub open spec fn match_len(self, ip: IpAddress) -> Option<u8> {
        match self {
            ResourceDescription::Cidr(c) => if c.address.covers(ip) {
                Some(c.address.len)
            } else {
                None
            },
            ResourceDescription::Dns(d) => match ip {
                IpAddress::V4(a) => if a == d.ipv4 {
                    Some(32u8)
                } else {
                    None
                },
                IpAddress::V6(a) => if a == d.ipv6 {
                    Some(128u8)
                } else {
                    None
                },
            },
        }
    }

    /// The number of leading bits by which the resource claims `ip`, if
    /// it does.
    pub fn matching_len(&self, ip: IpAddress) -> (r: Option<u8>)
        requires
            self.wf(),
        ensures
            r == self.match_len(ip),
    {
        match self {
            ResourceDescription::Cidr(c) => if c.address.contains(ip) {
                Some(c.address.len)
            } else {
                None
            },
            ResourceDescription::Dns(d) => match ip {
                IpAddress::V4(a) => if a == d.ipv4 {
                    Some(32)
                } else {
                    None
                },
                IpAddress::V6(a) => if a == d.ipv6 {
                    Some(128)
                } else {
                    None
                },
            },
        }
    }
}

/// A copy of a grant.
pub fn clone_grant(e: &ExpiringResource) -> (r: ExpiringResource)
    ensures
        r == *e,
{
    (e.0.clone(), e.1)
}

/// The first place at or after `from` where `s` holds `c`, or the length
/// of `s` if there is none.
pub open spec fn index_of(s: Seq<char>, c: char, from: int) -> int
    decreases s.len() - from,
{
    if from < 0 || from >= s.len() {
        s.len() as int
    } else if s[from] == c {
        from
    } else {
        index_of(s, c, from + 1)
    }
}

/// The name in a resource address: what stands before the first colon.
pub open spec fn host_of(address: Seq<char>) -> Seq<char> {
    address.subrange(0, index_of(address, ':', 0))
}

/// What stands between the first colon of a resource address and the
/// next, if there is a first colon.
pub open spec fn port_text_of(address: Seq<char>) -> Option<Seq<char>> {
    let first = index_of(address, ':', 0);
    if first < address.len() {
        Some(address.subrange(first + 1, index_of(address, ':', first + 1)))
    } else {
        None
    }
}

/// The number that decimal digits spell, if `s` is nothing but digits.
/// No digits spell zero.
pub open spec fn digits_value(s: Seq<char>) -> Option<nat>
    decreases s.len(),
{
    if s.len() == 0 {
        Some(0nat)
    } else if '0' <= s.last() <= '9' {
        match digits_value(s.drop_last()) {
            Some(v) => Some((v * 10 + (s.last() as u32 - '0' as u32)) as nat),
            None => None,
        }
    } else {
        None
    }
}

/// The port that a text spells: decimal digits, at least one, after an
/// optional plus sign, for a number that fits 16 bits.
pub open spec fn parse_port(s: Seq<char>) -> Option<u16> {
    let digits = if s.len() > 0 && s[0] == '+' {
        s.skip(1)
    } else {
        s
    };
    if digits.len() == 0 {
        None
    } else {
        match digits_value(digits) {
            Some(v) => if v <= 0xffff {
                Some(v as u16)
            } else {
                None
            },
            None => None,
        }
    }
}

/// The port in a resource address, if it has one that is a number.
pub open spec fn port_of(address: Seq<char>) -> Option<u16> {
    match port_text_of(address) {
        Some(text) => parse_port(text),
        None => None,
    }
}

/// Once digits spell more than 16 bits hold, more digits do not help.
proof fn lemma_digits_grow(s: Seq<char>, k: int)
    requires
        0 <= k <= s.len(),
        digits_value(s.take(k)) matches Some(v) && v > 0xffff,
    ensures
        digits_value(s) matches Some(v) ==> v > 0xffff,
    decreases s.len() - k,
{
    if k < s.len() {
        assert(s.take(k + 1).drop_last() == s.take(k));
        if '0' <= s[k] <= '9' {
            lemma_digits_grow(s, k + 1);
        } else {
            lemma_digits_stop(s, k + 1);
        }
    } else {
        assert(s.take(k) == s);
    }
}

/// A text with something else than a digit in it spells no number.
proof fn lemma_digits_stop(s: Seq<char>, k: int)
    requires
        0 <= k <= s.len(),
        digits_value(s.take(k)) is None,
    ensures
        digits_value(s) is None,
    decreases s.len() - k,
{
    if k < s.len() {
        assert(s.take(k + 1).drop_last() == s.take(k));
        lemma_digits_stop(s, k + 1);
    } else {
        assert(s.take(k) == s);
    }
}

/// The first place at or after `from` where `s` holds a colon, or the
/// number of characters of `s`.
fn find_colon(s: &str, from: usize) -> (at: usize)
    requires
        from <= s@.len(),
    ensures
        at == index_of(s@, ':', from as int),
        from <= at <= s@.len(),
{
    let n = s.unicode_len();
    let mut i: usize = from;
    while i < n
        invariant
            from <= i <= n,
            n == s@.len(),
            index_of(s@, ':', from as int) == index_of(s@, ':', i as int),
        decreases n - i,
    {
        if s.get_char(i) == ':' {
            return i;
        }
        i += 1;
    }
    i
}

/// The port that `s[from..to]` spells: see [`parse_port`].
fn parse_port_text(s: &str, from: usize, to: usize) -> (r: Option<u16>)
    requires
        from <= to <= s@.len(),
    ensures
        r == parse_port(s@.subrange(from as int, to as int)),
{
    let ghost text = s@.subrange(from as int, to as int);
    let mut i: usize = from;
    if i < to && s.get_char(i) == '+' {
        i += 1;
    }
    let ghost digits = s@.subrange(i as int, to as int);
    proof {
        if i > from {
            assert(text[0] == '+');
            assert(digits == text.skip(1));
        } else {
            if text.len() > 0 {
                assert(text[0] == s@[from as int]);
            }
            assert(digits == text);
        }
    }
    if i == to {
        return None;
    }
    let start = i;
    let mut value: u32 = 0;
    while i < to
        invariant
            start <= i <= to <= s@.len(),
            from <= start,
            digits == s@.subrange(start as int, to as int),
            parse_port(s@.subrange(from as int, to as int)) == (match digits_value(digits) {
                Some(v) => if v <= 0xffff {
                    Some(v as u16)
                } else {
                    None
                },
                None => None,
            }),
            digits_value(digits.take(i - start)) == Some(value as nat),
            value <= 0xffff,
        decreases to - i,
    {
        let c = s.get_char(i);
        proof {
            assert(digits.take(i - start + 1).drop_last() == digits.take(i - start));
            assert(digits.take(i - start + 1).last() == c);
        }
        if c < '0' || c > '9' {
            proof {
                lemma_digits_stop(digits, i - start + 1);
            }
            return None;
        }
        value = value * 10 + (c as u32 - '0' as u32);
        if value > 0xffff {
            proof {
                lemma_digits_grow(digits, i - start + 1);
            }
            return None;
        }
        i += 1;
    }
    proof {
        assert(digits.take(i - start) == digits);
    }
    Some(value as u16)
}

impl ResourceDescriptionDns {
    /// The name to resolve: see [`host_of`].
    pub fn host(&self) -> (r: String)
        ensures
            r@ == host_of(self.address@),
    {
        let s = self.address.as_str();
        let at = find_colon(s, 0);
        s.substring_char(0, at).to_owned()
    }

    /// The port that the address names, if it names one: see
    /// [`port_of`].
    pub fn port(&self) -> (r: Option<u16>)
        ensures
            r == port_of(self.address@),
    {
        let s = self.address.as_str();
        let n = s.unicode_len();
        let first = find_colon(s, 0);
        if first < n {
            let second = find_colon(s, first + 1);
            parse_port_text(s, first + 1, second)
        } else {
            None
        }
    }
}

} // verus!
