//! A longest-prefix-match table from networks to 128-bit identities.
//!
//! The table itself is `ip_network_table::IpNetworkTable`. Nothing here
//! looks inside it: what it holds is named by [`table_entries`], and each
//! function below states, without proof, what one method of the table
//! does to those entries.

use crate::ip::{IpAddress, IpPrefix};
use ip_network::{Ipv4Network, Ipv6Network};
use ip_network_table::IpNetworkTable;
use vstd::prelude::*;

verus! {

/// `ip_network_table::IpNetworkTable`. Nothing inside it is looked at.
#[verifier::external_type_specification]
#[verifier::external_body]
#[verifier::reject_recursive_types(T)]
pub struct ExIpNetworkTable<T>(IpNetworkTable<T>);

/// The entries of a table: each network it holds, with its value.
pub uninterp spec fn table_entries(t: IpNetworkTable<u128>) -> Map<IpPrefix, u128>;

/// Whether `r` is what a longest-prefix lookup of `ip` in `m` must give:
/// the entry of the longest network that covers `ip`, or nothing when no
/// network does.
pub open spec fn is_longest_match(
    m: Map<IpPrefix, u128>,
    ip: IpAddress,
    r: Option<(IpPrefix, u128)>,
) -> bool {
    match r {
        Some((p, v)) => {
            &&& m.contains_key(p)
            &&& m[p] == v
            &&& p.covers(ip)
            &&& forall|q: IpPrefix| #[trigger] m.contains_key(q) && q.covers(ip) ==> q.len <= p.len
        },
        None => forall|q: IpPrefix| #[trigger] m.contains_key(q) ==> !q.covers(ip),
    }
}

/// `IpNetworkTable::new`: a table that holds nothing.
#[verifier::external_body]
pub(crate) fn table_new() -> (t: IpNetworkTable<u128>)
    ensures
        (table_entries(t) == Map::<IpPrefix, u128>::empty()),
{
    IpNetworkTable::new()
}

/// `IpNetworkTable::insert`: the network now maps to `value`, every other
/// entry stays, and the value the network had before comes back.
#[verifier::external_body]
pub(crate) fn table_insert(t: &mut IpNetworkTable<u128>, prefix: IpPrefix, value: u128) -> (previous: Option<u128>)
    requires
        prefix.wf(),
    ensures
        table_entries(*final(t)) == table_entries(*old(t)).insert(prefix, value),
        previous == if table_entries(*old(t)).contains_key(prefix) {
            Some(table_entries(*old(t))[prefix])
        } else {
            None
        },
{
    match prefix.addr {
        IpAddress::V4(a) => t.insert(Ipv4Network::new(a.into(), prefix.len).unwrap(), value),
        IpAddress::V6(a) => t.insert(Ipv6Network::new(a.into(), prefix.len).unwrap(), value),
    }
}

/// `IpNetworkTable::remove`: the network is gone, every other entry
/// stays, and the value the network had comes back.
#[verifier::external_body]
pub(crate) fn table_remove(t: &mut IpNetworkTable<u128>, prefix: IpPrefix) -> (previous: Option<u128>)
    requires
        prefix.wf(),
    ensures
        table_entries(*final(t)) == table_entries(*old(t)).remove(prefix),
        previous == if table_entries(*old(t)).contains_key(prefix) {
            Some(table_entries(*old(t))[prefix])
        } else {
            None
        },
{
    match prefix.addr {
        IpAddress::V4(a) => t.remove(Ipv4Network::new(a.into(), prefix.len).unwrap()),
        IpAddress::V6(a) => t.remove(Ipv6Network::new(a.into(), prefix.len).unwrap()),
    }
}

/// `IpNetworkTable::longest_match_ipv4` and `longest_match_ipv6`: the
/// entry of the most specific network that contains `ip`.
#[verifier::external_body]
pub(crate) fn table_longest_match(t: &IpNetworkTable<u128>, ip: IpAddress) -> (r: Option<(IpPrefix, u128)>)
    ensures
        is_longest_match(table_entries(*t), ip, r),
{
    match ip {
        IpAddress::V4(a) => t.longest_match_ipv4(a.into()).map(
            |(n, v)| (IpPrefix { addr: IpAddress::V4(n.network_address().into()), len: n.netmask() }, *v),
        ),
        IpAddress::V6(a) => t.longest_match_ipv6(a.into()).map(
            |(n, v)| (IpPrefix { addr: IpAddress::V6(n.network_address().into()), len: n.netmask() }, *v),
        ),
    }
}

/// `IpNetworkTable::iter_ipv4` and `iter_ipv6`: every entry once, in an
/// order the table does not promise.
#[verifier::external_body]
pub(crate) fn table_iter(t: &IpNetworkTable<u128>) -> (r: Vec<(IpPrefix, u128)>)
    ensures
        r@.no_duplicates(),
        forall|p: IpPrefix, v: u128| #[trigger]
            r@.contains((p, v)) <==> table_entries(*t).contains_pair(p, v),
{
    let v4 = t.iter_ipv4().map(
        |(n, v)| (IpPrefix { addr: IpAddress::V4(n.network_address().into()), len: n.netmask() }, *v),
    );
    let v6 = t.iter_ipv6().map(
        |(n, v)| (IpPrefix { addr: IpAddress::V6(n.network_address().into()), len: n.netmask() }, *v),
    );
    v4.chain(v6).collect()
}

} // verus!
