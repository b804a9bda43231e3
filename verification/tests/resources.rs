use firezone_tunnel::ip::{IpAddress, IpPrefix};
use firezone_tunnel::resource::{
    ResourceDescription, ResourceDescriptionCidr, ResourceDescriptionDns,
};
use firezone_tunnel::resource_table::ResourceTable;
use firezone_tunnel::time::Timestamp;
use firezone_tunnel::translation::TranslationMap;

fn v4(a: u8, b: u8, c: u8, d: u8) -> IpAddress {
    IpAddress::V4(u32::from_be_bytes([a, b, c, d]))
}

fn at(secs: i64) -> Timestamp {
    Timestamp { secs, nanos: 0 }
}

fn cidr(id: u128, addr: IpAddress, len: u8) -> ResourceDescription {
    ResourceDescription::Cidr(ResourceDescriptionCidr {
        id,
        address: IpPrefix::new(addr, len).unwrap(),
        name: format!("net-{id}"),
    })
}

fn dns(id: u128, address: &str, ipv4: IpAddress) -> ResourceDescription {
    let IpAddress::V4(ipv4) = ipv4 else { panic!("an IPv4 address") };
    ResourceDescription::Dns(ResourceDescriptionDns {
        id,
        address: address.to_string(),
        ipv4,
        ipv6: 0xfd00_0000_0000_0000_0000_0000_0000_0000 + id,
        name: format!("dns-{id}"),
    })
}

#[test]
fn timestamps_compare_by_seconds_then_nanos() {
    let a = Timestamp { secs: 10, nanos: 5 };
    assert!(a.is_at_or_before(&a));
    assert!(a.is_at_or_before(&Timestamp { secs: 10, nanos: 6 }));
    assert!(!a.is_at_or_before(&Timestamp { secs: 10, nanos: 4 }));
    assert!(a.is_at_or_before(&Timestamp { secs: 11, nanos: 0 }));
    assert!(!a.is_at_or_before(&Timestamp { secs: 9, nanos: 999_999_999 }));
    assert!(Timestamp { secs: -1, nanos: 0 }.is_at_or_before(&Timestamp { secs: 0, nanos: 0 }));
}

#[test]
fn dns_host_is_what_precedes_the_first_colon() {
    let ResourceDescription::Dns(r) = dns(1, "example.com:8080", v4(100, 64, 0, 1)) else {
        unreachable!()
    };
    assert_eq!(r.host(), "example.com");
    assert_eq!(r.port(), Some(8080));
}

#[test]
fn dns_address_without_port() {
    let ResourceDescription::Dns(r) = dns(1, "example.com", v4(100, 64, 0, 1)) else {
        unreachable!()
    };
    assert_eq!(r.host(), "example.com");
    assert_eq!(r.port(), None);
}

#[test]
fn dns_port_edge_cases() {
    let port = |address: &str| {
        let ResourceDescription::Dns(r) = dns(1, address, v4(100, 64, 0, 1)) else {
            unreachable!()
        };
        r.port()
    };
    assert_eq!(port("h:0"), Some(0));
    assert_eq!(port("h:65535"), Some(65535));
    assert_eq!(port("h:65536"), None);
    assert_eq!(port("h:999999999999999999999"), None);
    assert_eq!(port("h:+443"), Some(443));
    assert_eq!(port("h:+"), None);
    assert_eq!(port("h:"), None);
    assert_eq!(port("h:-1"), None);
    assert_eq!(port("h:80a"), None);
    assert_eq!(port("h: 80"), None);
    assert_eq!(port("h:0080"), Some(80));
    assert_eq!(port("h:80:90"), Some(80));
    assert_eq!(port("h::90"), None);
}

#[test]
fn dns_port_agrees_with_the_standard_parser() {
    for text in ["1", "22", "+7", "65535", "65536", "", "+", "x", "12x", "００"] {
        let address = format!("host:{text}");
        let ResourceDescription::Dns(r) = dns(1, &address, v4(100, 64, 0, 1)) else {
            unreachable!()
        };
        assert_eq!(r.port(), text.parse::<u16>().ok(), "port text {text:?}");
    }
}

#[test]
fn dns_host_of_a_name_beyond_ascii() {
    let ResourceDescription::Dns(r) = dns(1, "bücher.example:53", v4(100, 64, 0, 1)) else {
        unreachable!()
    };
    assert_eq!(r.host(), "bücher.example");
    assert_eq!(r.port(), Some(53));
}

#[test]
fn empty_dns_address() {
    let ResourceDescription::Dns(r) = dns(1, "", v4(100, 64, 0, 1)) else { unreachable!() };
    assert_eq!(r.host(), "");
    assert_eq!(r.port(), None);
}

#[test]
fn resource_claims_addresses_by_prefix_length() {
    let net = cidr(1, v4(10, 0, 0, 0), 24);
    assert_eq!(net.matching_len(v4(10, 0, 0, 5)), Some(24));
    assert_eq!(net.matching_len(v4(10, 0, 1, 5)), None);
    let name = dns(2, "a.example", v4(100, 64, 0, 2));
    assert_eq!(name.matching_len(v4(100, 64, 0, 2)), Some(32));
    assert_eq!(name.matching_len(v4(100, 64, 0, 3)), None);
    assert_eq!(name.matching_len(IpAddress::V6(0xfd00_0000_0000_0000_0000_0000_0000_0002)), Some(128));
    assert_eq!(net.id(), 1);
    assert_eq!(name.id(), 2);
}

#[test]
fn table_finds_grants_by_identity() {
    let mut table = ResourceTable::new();
    assert!(table.is_empty());
    table.insert((cidr(1, v4(10, 0, 0, 0), 24), at(100)));
    table.insert((dns(2, "a.example", v4(100, 64, 0, 2)), at(200)));
    assert_eq!(table.len(), 2);
    assert_eq!(table.get_by_id(1).unwrap().1, at(100));
    assert_eq!(table.get_by_id(2).unwrap().0.id(), 2);
    assert!(table.get_by_id(3).is_none());
}

#[test]
fn table_keeps_one_grant_per_identity() {
    let mut table = ResourceTable::new();
    table.insert((cidr(1, v4(10, 0, 0, 0), 24), at(100)));
    table.insert((cidr(2, v4(10, 1, 0, 0), 16), at(100)));
    table.insert((cidr(1, v4(10, 2, 0, 0), 16), at(300)));
    assert_eq!(table.len(), 2);
    let grant = table.get_by_id(1).unwrap();
    assert_eq!(grant.1, at(300));
    assert!(table.get_by_ip(v4(10, 0, 0, 5)).is_none());
    assert_eq!(table.get_by_ip(v4(10, 2, 0, 5)).unwrap().0.id(), 1);
    let ids: Vec<u128> = table.values().iter().map(|e| e.0.id()).collect();
    assert_eq!(ids, vec![2, 1]);
}

#[test]
fn table_answers_by_longest_prefix() {
    let mut table = ResourceTable::new();
    table.insert((cidr(1, v4(10, 0, 0, 0), 8), at(100)));
    table.insert((cidr(2, v4(10, 0, 0, 0), 24), at(100)));
    table.insert((cidr(3, v4(10, 0, 0, 0), 16), at(100)));
    assert_eq!(table.get_by_ip(v4(10, 0, 0, 5)).unwrap().0.id(), 2);
    assert_eq!(table.get_by_ip(v4(10, 0, 1, 5)).unwrap().0.id(), 3);
    assert_eq!(table.get_by_ip(v4(10, 1, 1, 5)).unwrap().0.id(), 1);
    assert!(table.get_by_ip(v4(11, 0, 0, 1)).is_none());
    assert!(table.get_by_ip(IpAddress::V6(1)).is_none());
}

#[test]
fn table_prefers_the_later_of_equal_prefixes() {
    let mut table = ResourceTable::new();
    table.insert((cidr(1, v4(10, 0, 0, 0), 24), at(100)));
    table.insert((cidr(2, v4(10, 0, 0, 0), 24), at(100)));
    assert_eq!(table.get_by_ip(v4(10, 0, 0, 5)).unwrap().0.id(), 2);
}

#[test]
fn table_finds_dns_grants_by_address_and_name() {
    let mut table = ResourceTable::new();
    table.insert((dns(7, "a.example:80", v4(100, 64, 0, 7)), at(100)));
    table.insert((cidr(8, v4(100, 64, 0, 0), 16), at(100)));
    assert_eq!(table.get_by_ip(v4(100, 64, 0, 7)).unwrap().0.id(), 7);
    assert_eq!(table.get_by_ip(v4(100, 64, 0, 8)).unwrap().0.id(), 8);
    assert_eq!(table.get_by_name(&"a.example:80".to_string()).unwrap().0.id(), 7);
    assert!(table.get_by_name(&"b.example".to_string()).is_none());
    assert_eq!(table.dns_resources().len(), 1);
    assert_eq!(table.network_resources().len(), 1);
    assert_eq!(table.dns_resources()[0].0.id(), 7);
    assert_eq!(table.network_resources()[0].0.id(), 8);
}

#[test]
fn table_cleanup_drops_one_grant() {
    let mut table = ResourceTable::new();
    table.insert((cidr(1, v4(10, 0, 0, 0), 24), at(100)));
    table.insert((cidr(2, v4(10, 1, 0, 0), 24), at(100)));
    table.cleanup_resource(1);
    assert_eq!(table.len(), 1);
    assert!(table.get_by_id(1).is_none());
    assert!(table.get_by_id(2).is_some());
    table.cleanup_resource(1);
    assert_eq!(table.len(), 1);
}

#[test]
fn table_expire_drops_what_has_ended() {
    let mut table = ResourceTable::new();
    table.insert((cidr(1, v4(10, 0, 0, 0), 24), at(100)));
    table.insert((cidr(2, v4(10, 1, 0, 0), 24), at(200)));
    table.insert((cidr(3, v4(10, 2, 0, 0), 24), at(150)));
    let mut gone = table.expire(at(150));
    gone.sort();
    assert_eq!(gone, vec![1, 3]);
    assert_eq!(table.len(), 1);
    assert!(table.get_by_id(2).is_some());
    assert!(table.expire(at(150)).is_empty());
    assert_eq!(table.len(), 1);
}

#[test]
fn table_expire_is_inclusive_of_the_instant() {
    let mut table = ResourceTable::new();
    table.insert((cidr(1, v4(10, 0, 0, 0), 24), Timestamp { secs: 100, nanos: 7 }));
    assert!(table.expire(Timestamp { secs: 100, nanos: 6 }).is_empty());
    assert_eq!(table.expire(Timestamp { secs: 100, nanos: 7 }), vec![1]);
    assert!(table.is_empty());
}

#[test]
fn translations_map_addresses_to_resources() {
    let mut map = TranslationMap::new();
    assert_eq!(map.get(v4(1, 1, 1, 1)), None);
    map.insert(v4(1, 1, 1, 1), 7);
    map.insert(v4(2, 2, 2, 2), 8);
    assert_eq!(map.get(v4(1, 1, 1, 1)), Some(7));
    assert_eq!(map.get(v4(2, 2, 2, 2)), Some(8));
    map.insert(v4(1, 1, 1, 1), 9);
    assert_eq!(map.get(v4(1, 1, 1, 1)), Some(9));
    assert_eq!(map.entries().len(), 2);
}

#[test]
fn translations_purge_by_target() {
    let mut map = TranslationMap::new();
    map.insert(v4(1, 1, 1, 1), 7);
    map.insert(v4(2, 2, 2, 2), 8);
    map.insert(v4(3, 3, 3, 3), 7);
    map.insert(IpAddress::V6(5), 9);
    map.purge(&vec![7, 42]);
    assert_eq!(map.get(v4(1, 1, 1, 1)), None);
    assert_eq!(map.get(v4(3, 3, 3, 3)), None);
    assert_eq!(map.get(v4(2, 2, 2, 2)), Some(8));
    assert_eq!(map.get(IpAddress::V6(5)), Some(9));
    let mut left = map.entries();
    left.sort_by_key(|e| e.1);
    assert_eq!(left, vec![(v4(2, 2, 2, 2), 8), (IpAddress::V6(5), 9)]);
}
