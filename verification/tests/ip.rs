use firezone_tunnel::ip::{IpAddress, IpPrefix};

fn v4(a: u8, b: u8, c: u8, d: u8) -> IpAddress {
    IpAddress::V4(u32::from_be_bytes([a, b, c, d]))
}

#[test]
fn prefix_new_takes_network_addresses() {
    let net = IpPrefix::new(v4(10, 0, 0, 0), 24).unwrap();
    assert_eq!(net.addr, v4(10, 0, 0, 0));
    assert_eq!(net.len, 24);
    assert!(IpPrefix::new(IpAddress::V4(0), 0).is_some());
    assert!(IpPrefix::new(v4(255, 255, 255, 255), 32).is_some());
    assert!(IpPrefix::new(IpAddress::V6(0xfd00 << 112), 8).is_some());
    assert!(IpPrefix::new(IpAddress::V6(u128::MAX), 128).is_some());
}

#[test]
fn prefix_new_rejects_host_bits() {
    assert!(IpPrefix::new(v4(10, 0, 0, 1), 24).is_none());
    assert!(IpPrefix::new(v4(10, 0, 0, 1), 0).is_none());
    assert!(IpPrefix::new(IpAddress::V6(1), 127).is_none());
}

#[test]
fn prefix_new_rejects_long_netmasks() {
    assert!(IpPrefix::new(IpAddress::V4(0), 33).is_none());
    assert!(IpPrefix::new(IpAddress::V6(0), 129).is_none());
}

#[test]
fn prefix_contains_its_addresses_only() {
    let net = IpPrefix::new(v4(10, 0, 0, 0), 24).unwrap();
    assert!(net.contains(v4(10, 0, 0, 0)));
    assert!(net.contains(v4(10, 0, 0, 5)));
    assert!(net.contains(v4(10, 0, 0, 255)));
    assert!(!net.contains(v4(10, 0, 1, 5)));
    assert!(!net.contains(v4(11, 0, 0, 5)));
}

#[test]
fn prefix_never_contains_the_other_family() {
    let all_v4 = IpPrefix::new(IpAddress::V4(0), 0).unwrap();
    let all_v6 = IpPrefix::new(IpAddress::V6(0), 0).unwrap();
    assert!(all_v4.contains(v4(1, 2, 3, 4)));
    assert!(!all_v4.contains(IpAddress::V6(0x0102_0304)));
    assert!(all_v6.contains(IpAddress::V6(0x0102_0304)));
    assert!(!all_v6.contains(v4(1, 2, 3, 4)));
}

#[test]
fn prefix_contains_in_ipv6() {
    let net = IpPrefix::new(IpAddress::V6(0x2001_0db8 << 96), 32).unwrap();
    assert!(net.contains(IpAddress::V6((0x2001_0db8 << 96) | 1)));
    assert!(!net.contains(IpAddress::V6(0x2001_0db9 << 96)));
}

#[test]
fn host_prefix_holds_one_address() {
    let host = IpPrefix::host(v4(192, 168, 0, 7));
    assert_eq!(host.len, 32);
    assert!(host.contains(v4(192, 168, 0, 7)));
    assert!(!host.contains(v4(192, 168, 0, 6)));
    let host6 = IpPrefix::host(IpAddress::V6(42));
    assert_eq!(host6.len, 128);
    assert!(host6.contains(IpAddress::V6(42)));
    assert!(!host6.contains(IpAddress::V6(43)));
}

#[test]
fn address_families() {
    assert!(v4(1, 1, 1, 1).is_ipv4());
    assert!(!v4(1, 1, 1, 1).is_ipv6());
    assert!(IpAddress::V6(1).is_ipv6());
    assert!(!IpAddress::V6(1).is_ipv4());
}
