use std::collections::VecDeque;
use std::sync::Arc;

use boringtun::noise::rate_limiter::RateLimiter;
use boringtun::x25519::{PublicKey, StaticSecret};
use firezone_tunnel::device_channel::Packet;
use firezone_tunnel::error::Error;
use firezone_tunnel::ip::{IpAddress, IpPrefix};
use firezone_tunnel::ip_packet::{destination, source, MutableIpPacket};
use firezone_tunnel::noise::{SessionReply, WireGuardFault};
use firezone_tunnel::peer::{
    find_matching_version_ip, flush_step, get_matching_version_ip, get_resource_addr_and_port, make_packet,
    make_packet_for_resource, network_reply, update_packet, Peer, PeerConfig, PeerInfo, WriteTo,
};
use firezone_tunnel::resource::{
    ResourceDescription, ResourceDescriptionCidr, ResourceDescriptionDns,
};
use firezone_tunnel::time::Timestamp;
use firezone_tunnel::MAX_UDP_SIZE;

const CLIENT: IpAddress = IpAddress::V4(0x6440_0001); // 100.64.0.1
const ASSIGNED: u32 = 0x6460_0007; // 100.96.0.7
const RESOLVED: IpAddress = IpAddress::V4(0x5db8_d822); // 93.184.216.34

fn v4(a: u8, b: u8, c: u8, d: u8) -> IpAddress {
    IpAddress::V4(u32::from_be_bytes([a, b, c, d]))
}

fn net(a: u8, b: u8, c: u8, d: u8, len: u8) -> IpPrefix {
    IpPrefix::new(v4(a, b, c, d), len).unwrap()
}

fn at(secs: i64) -> Timestamp {
    Timestamp { secs, nanos: 0 }
}

fn public_of(private: &[u8; 32]) -> [u8; 32] {
    PublicKey::from(&StaticSecret::from(*private)).to_bytes()
}

fn peer(
    private: [u8; 32],
    their_private: [u8; 32],
    index: u32,
    ips: Vec<IpPrefix>,
    conn_id: u128,
    resource: Option<(ResourceDescription, Timestamp)>,
) -> Peer {
    let limiter = Arc::new(RateLimiter::new(&PublicKey::from(public_of(&private)), 100));
    let config = PeerConfig {
        persistent_keepalive: None,
        public_key: public_of(&their_private),
        ips,
        preshared_key: [7; 32],
    };
    Peer::new(&private, index, config, conn_id, resource, limiter)
}

fn lonely(ips: Vec<IpPrefix>, resource: Option<(ResourceDescription, Timestamp)>) -> Peer {
    peer([1; 32], [2; 32], 1, ips, 77, resource)
}

fn cidr(id: u128, prefix: IpPrefix) -> ResourceDescription {
    ResourceDescription::Cidr(ResourceDescriptionCidr { id, address: prefix, name: "net".to_string() })
}

fn dns(id: u128, address: &str) -> ResourceDescription {
    ResourceDescription::Dns(ResourceDescriptionDns {
        id,
        address: address.to_string(),
        ipv4: ASSIGNED,
        ipv6: 0xfd00_0000_0000_0000_0000_0000_0000_0007,
        name: "name".to_string(),
    })
}

fn udp_packet(src: IpAddress, dst: IpAddress, payload: &[u8]) -> Vec<u8> {
    let (IpAddress::V4(src), IpAddress::V4(dst)) = (src, dst) else { panic!("IPv4 only") };
    let total = (28 + payload.len()) as u16;
    let mut p = vec![0x45, 0x00];
    p.extend_from_slice(&total.to_be_bytes());
    p.extend_from_slice(&[0x00, 0x00, 0x40, 0x00, 0x40, 17, 0x00, 0x00]);
    p.extend_from_slice(&src.to_be_bytes());
    p.extend_from_slice(&dst.to_be_bytes());
    p.extend_from_slice(&[0x30, 0x39, 0x00, 0x35]);
    p.extend_from_slice(&((8 + payload.len()) as u16).to_be_bytes());
    p.extend_from_slice(&[0, 0]);
    p.extend_from_slice(payload);
    update_packet(p, IpAddress::V4(dst))
}

fn scratch() -> Vec<u8> {
    vec![0u8; MAX_UDP_SIZE]
}

fn bytes_of(packet: Packet) -> Vec<u8> {
    match packet {
        Packet::Ipv4(b) => b,
        Packet::Ipv6(b) => b,
    }
}

/// Lets `a` send `packet` to `b` over a fresh pair of sessions and gives
/// what `b` makes of each message that carries data.
fn carry(a: &mut Peer, b: &mut Peer, packet: Vec<u8>) -> Vec<Result<Option<WriteTo>, Error>> {
    let mut buf_a = scratch();
    let mut buf_b = scratch();
    let dest = destination(&packet).unwrap();
    let first = a.encapsulate(MutableIpPacket::new(&packet).unwrap(), dest, &mut buf_a).unwrap().unwrap();
    let mut to_b = vec![first];
    let mut outcomes = Vec::new();
    let mut rounds = 0;
    while !to_b.is_empty() && rounds < 8 {
        rounds += 1;
        let mut to_a = Vec::new();
        for message in to_b.drain(..) {
            match b.decapsulate(&message, &mut buf_b) {
                Ok(Some(WriteTo::Network(replies))) => to_a.extend(replies),
                Ok(None) => {}
                other => outcomes.push(other),
            }
        }
        for message in to_a {
            match a.decapsulate(&message, &mut buf_a) {
                Ok(Some(WriteTo::Network(replies))) => to_b.extend(replies),
                Ok(None) => {}
                other => panic!("unexpected answer: {:?}", other.is_ok()),
            }
        }
    }
    outcomes
}

#[test]
fn config_of_an_announced_peer_holds_its_two_addresses() {
    let config = PeerConfig::from(PeerInfo {
        persistent_keepalive: Some(25),
        public_key: [3; 32],
        ipv4: 0x6440_0001,
        ipv6: 0xfd00 << 112 | 1,
        preshared_key: [4; 32],
    });
    assert_eq!(config.persistent_keepalive, Some(25));
    assert_eq!(config.public_key, [3; 32]);
    assert_eq!(config.preshared_key, [4; 32]);
    assert_eq!(
        config.ips,
        vec![
            IpPrefix { addr: IpAddress::V4(0x6440_0001), len: 32 },
            IpPrefix { addr: IpAddress::V6(0xfd00 << 112 | 1), len: 128 },
        ]
    );
}

#[test]
fn new_peer_without_a_grant_is_a_full_tunnel() {
    let p = lonely(vec![net(10, 0, 0, 0, 24)], None);
    assert_eq!(p.conn_id(), 77);
    assert_eq!(p.conn_id, 77);
    assert!(!p.keeps_grants());
    assert!(!p.is_emptied());
    let stats = p.stats();
    assert_eq!(stats.conn_id, 77);
    assert_eq!(stats.allowed_ips, vec![net(10, 0, 0, 0, 24)]);
    assert!(stats.dns_resources.is_empty());
    assert!(stats.network_resources.is_empty());
    assert!(stats.translated_resource_addresses.is_empty());
}

#[test]
fn new_peer_with_a_grant_keeps_it() {
    let p = lonely(vec![net(10, 0, 0, 0, 24)], Some((cidr(5, net(10, 1, 0, 0, 16)), at(100))));
    assert!(p.keeps_grants());
    assert!(!p.is_emptied());
    let stats = p.stats();
    assert_eq!(stats.network_resources.len(), 1);
    assert_eq!(stats.network_resources[0].0.id(), 5);
    assert_eq!(stats.network_resources[0].1, at(100));
}

#[test]
fn allowed_prefixes_allow_all_their_addresses() {
    let mut p = lonely(vec![net(10, 0, 0, 0, 24), net(192, 168, 0, 0, 16)], None);
    for last in [0u8, 1, 127, 255] {
        assert!(p.is_allowed(v4(10, 0, 0, last)));
        assert!(p.is_allowed(v4(192, 168, last, last)));
    }
    assert!(!p.is_allowed(v4(10, 0, 1, 0)));
    assert!(!p.is_allowed(v4(192, 169, 0, 0)));
    assert!(!p.is_allowed(IpAddress::V6(0x0a00_0001)));
    p.add_allowed_ip(IpPrefix::new(IpAddress::V6(0xfd00 << 112), 16).unwrap());
    assert!(p.is_allowed(IpAddress::V6(0xfd00 << 112 | 99)));
    assert!(p.is_allowed(v4(10, 0, 0, 9)));
    let mut allowed = p.stats().allowed_ips;
    allowed.sort_by_key(|n| n.len);
    assert_eq!(allowed.len(), 3);
    assert_eq!(allowed[2], net(10, 0, 0, 0, 24));
}

#[test]
fn peer_without_prefixes_allows_nothing() {
    let p = lonely(vec![], None);
    assert!(!p.is_allowed(v4(10, 0, 0, 1)));
    assert!(!p.is_allowed(IpAddress::V6(1)));
}

#[test]
fn expiry_drops_ended_grants_and_their_translations() {
    let mut p = lonely(vec![], Some((dns(1, "a.example"), at(100))));
    p.add_resource(dns(2, "b.example"), at(200));
    p.add_resource(cidr(3, net(10, 0, 0, 0, 24)), at(100));
    p.update_translated_resource_address(1, v4(1, 1, 1, 1));
    p.update_translated_resource_address(2, v4(2, 2, 2, 2));
    p.update_translated_resource_address(1, v4(3, 3, 3, 3));
    p.update_translated_resource_address(9, v4(9, 9, 9, 9));
    p.expire_resources_at(at(100));
    let stats = p.stats();
    assert_eq!(stats.dns_resources.len(), 1);
    assert_eq!(stats.dns_resources[0].0.id(), 2);
    assert!(stats.network_resources.is_empty());
    let mut left = stats.translated_resource_addresses;
    left.sort_by_key(|e| e.1);
    assert_eq!(left, vec![(v4(2, 2, 2, 2), 2), (v4(9, 9, 9, 9), 9)]);
    assert!(!p.is_emptied());
}

#[test]
fn expiry_twice_is_expiry_once() {
    let mut p = lonely(vec![], Some((dns(1, "a.example"), at(100))));
    p.add_resource(dns(2, "b.example"), at(200));
    p.update_translated_resource_address(1, v4(1, 1, 1, 1));
    p.update_translated_resource_address(2, v4(2, 2, 2, 2));
    p.expire_resources_at(at(150));
    let once = p.stats();
    p.expire_resources_at(at(150));
    let twice = p.stats();
    assert_eq!(once.translated_resource_addresses, twice.translated_resource_addresses);
    assert_eq!(once.dns_resources.len(), twice.dns_resources.len());
    assert_eq!(once.dns_resources[0].0.id(), twice.dns_resources[0].0.id());
    assert_eq!(once.translated_resource_addresses, vec![(v4(2, 2, 2, 2), 2)]);
}

#[test]
fn peer_whose_grants_all_ended_is_emptied() {
    let mut p = lonely(vec![], Some((cidr(1, net(10, 0, 0, 0, 24)), at(100))));
    p.add_resource(cidr(2, net(10, 1, 0, 0, 24)), at(50));
    assert!(!p.is_emptied());
    p.expire_resources_at(at(99));
    assert!(!p.is_emptied());
    p.expire_resources_at(at(100));
    assert!(p.is_emptied());
    assert!(p.keeps_grants());
}

#[test]
fn full_tunnel_peer_is_never_emptied() {
    let mut p = lonely(vec![net(10, 0, 0, 0, 24)], None);
    p.add_resource(cidr(1, net(10, 0, 0, 0, 24)), at(0));
    p.expire_resources_at(at(i64::MAX));
    assert!(!p.is_emptied());
    assert!(!p.keeps_grants());
    p.expire_resources();
    assert!(!p.is_emptied());
}

#[test]
fn expiry_by_the_clock() {
    let mut p = lonely(vec![], Some((cidr(1, net(10, 0, 0, 0, 24)), at(1))));
    p.add_resource(cidr(2, net(10, 1, 0, 0, 24)), at(i64::MAX / 2));
    p.expire_resources();
    let stats = p.stats();
    assert_eq!(stats.network_resources.len(), 1);
    assert_eq!(stats.network_resources[0].0.id(), 2);
    assert!(!p.is_emptied());
}

#[test]
fn translation_sticks_while_the_grant_lasts() {
    let mut p = lonely(vec![], Some((dns(1, "a.example"), at(100))));
    p.add_resource(dns(2, "b.example"), at(200));
    assert!(p.get_translation(RESOLVED).is_none());
    p.update_translated_resource_address(1, RESOLVED);
    assert_eq!(p.get_translation(RESOLVED).unwrap().id(), 1);
    assert_eq!(p.get_translation(RESOLVED).unwrap().id(), 1);
    assert!(p.get_translation(v4(1, 1, 1, 1)).is_none());
    p.update_translated_resource_address(2, v4(1, 1, 1, 1));
    assert_eq!(p.get_translation(RESOLVED).unwrap().id(), 1);
    p.expire_resources_at(at(100));
    assert!(p.get_translation(RESOLVED).is_none());
    assert_eq!(p.get_translation(v4(1, 1, 1, 1)).unwrap().id(), 2);
}

#[test]
fn translation_to_an_unknown_resource_gives_nothing() {
    let mut p = lonely(vec![], Some((dns(1, "a.example"), at(100))));
    p.update_translated_resource_address(42, RESOLVED);
    assert!(p.get_translation(RESOLVED).is_none());
    let mut full = lonely(vec![], None);
    full.update_translated_resource_address(1, RESOLVED);
    assert!(full.get_translation(RESOLVED).is_none());
}

#[test]
fn matching_version_ip_keeps_the_family() {
    assert_eq!(get_matching_version_ip(&v4(1, 1, 1, 1), &v4(2, 2, 2, 2)), Some(v4(2, 2, 2, 2)));
    assert_eq!(get_matching_version_ip(&v4(1, 1, 1, 1), &IpAddress::V6(2)), None);
    assert_eq!(get_matching_version_ip(&IpAddress::V6(1), &IpAddress::V6(2)), Some(IpAddress::V6(2)));
    assert_eq!(get_matching_version_ip(&IpAddress::V6(1), &v4(2, 2, 2, 2)), None);
    let candidates = vec![IpAddress::V6(5), v4(3, 3, 3, 3), v4(4, 4, 4, 4), IpAddress::V6(6)];
    assert_eq!(find_matching_version_ip(&candidates, &v4(1, 1, 1, 1)), Some(v4(3, 3, 3, 3)));
    assert_eq!(find_matching_version_ip(&candidates, &IpAddress::V6(1)), Some(IpAddress::V6(5)));
    assert_eq!(find_matching_version_ip(&vec![v4(3, 3, 3, 3)], &IpAddress::V6(1)), None);
    assert_eq!(find_matching_version_ip(&vec![], &IpAddress::V6(1)), None);
}

#[test]
fn target_of_a_network_resource_is_the_destination() {
    let mut p = lonely(vec![], None);
    let resource = cidr(1, net(10, 0, 0, 0, 24));
    assert_eq!(
        get_resource_addr_and_port(&mut p, &resource, &CLIENT, &v4(10, 0, 0, 5), None),
        Ok((v4(10, 0, 0, 5), None))
    );
    assert_eq!(
        get_resource_addr_and_port(&mut p, &resource, &CLIENT, &v4(10, 0, 1, 5), None),
        Err(Error::InvalidSource)
    );
    assert_eq!(
        get_resource_addr_and_port(&mut p, &resource, &IpAddress::V6(1), &v4(10, 0, 0, 5), None),
        Err(Error::InvalidResource)
    );
    assert!(p.stats().translated_resource_addresses.is_empty());
}

#[test]
fn target_of_a_named_resource_is_resolved_and_recorded() {
    let mut p = lonely(vec![], Some((dns(1, "a.example:8443"), at(100))));
    let resource = dns(1, "a.example:8443");
    let resolved = vec![IpAddress::V6(9), RESOLVED, v4(1, 1, 1, 1)];
    assert_eq!(
        get_resource_addr_and_port(&mut p, &resource, &CLIENT, &IpAddress::V4(ASSIGNED), Some(&resolved)),
        Ok((RESOLVED, Some(8443)))
    );
    assert_eq!(p.stats().translated_resource_addresses, vec![(RESOLVED, 1)]);
    assert_eq!(
        get_resource_addr_and_port(&mut p, &resource, &IpAddress::V6(1), &IpAddress::V6(2), Some(&resolved)),
        Ok((IpAddress::V6(9), Some(8443)))
    );
    assert_eq!(p.stats().translated_resource_addresses.len(), 2);
}

#[test]
fn named_resource_that_does_not_resolve_is_invalid() {
    let mut p = lonely(vec![], Some((dns(1, "a.example"), at(100))));
    let resource = dns(1, "a.example");
    assert_eq!(
        get_resource_addr_and_port(&mut p, &resource, &CLIENT, &IpAddress::V4(ASSIGNED), None),
        Err(Error::InvalidResource)
    );
    assert_eq!(
        get_resource_addr_and_port(&mut p, &resource, &CLIENT, &IpAddress::V4(ASSIGNED), Some(&vec![])),
        Err(Error::InvalidResource)
    );
    assert_eq!(
        get_resource_addr_and_port(
            &mut p,
            &resource,
            &CLIENT,
            &IpAddress::V4(ASSIGNED),
            Some(&vec![IpAddress::V6(1)])
        ),
        Err(Error::InvalidResource)
    );
    assert!(p.stats().translated_resource_addresses.is_empty());
}

#[test]
fn packet_inside_a_granted_network_is_routed_unchanged() {
    let grant = (cidr(1, net(10, 0, 0, 0, 24)), at(100));
    let mut p = lonely(vec![IpPrefix::host(CLIENT)], Some(grant));
    let packet = udp_packet(CLIENT, v4(10, 0, 0, 5), b"hello");
    assert!(p.lookup_needed(CLIENT, &packet).is_none());
    let (dst, resource) = p.get_packet_resource(&packet).unwrap();
    assert_eq!(dst, v4(10, 0, 0, 5));
    assert_eq!(resource.id(), 1);
    let routed = make_packet_for_resource(&mut p, CLIENT, packet.clone(), None).unwrap().unwrap();
    assert!(matches!(routed, Packet::Ipv4(_)));
    assert_eq!(bytes_of(routed), packet);
}

#[test]
fn packet_outside_every_grant_is_dropped() {
    let grant = (cidr(1, net(10, 0, 0, 0, 24)), at(100));
    let mut p = lonely(vec![IpPrefix::host(CLIENT)], Some(grant));
    let packet = udp_packet(CLIENT, v4(10, 0, 1, 5), b"hello");
    assert!(p.get_packet_resource(&packet).is_none());
    assert!(matches!(make_packet_for_resource(&mut p, CLIENT, packet, None), Ok(None)));
}

#[test]
fn packet_from_an_address_that_is_not_allowed_is_dropped() {
    let grant = (cidr(1, net(10, 0, 0, 0, 24)), at(100));
    let mut p = lonely(vec![IpPrefix::host(CLIENT)], Some(grant));
    let packet = udp_packet(v4(100, 64, 0, 2), v4(10, 0, 0, 5), b"hello");
    assert!(matches!(make_packet_for_resource(&mut p, v4(100, 64, 0, 2), packet.clone(), None), Ok(None)));
    let mut full = lonely(vec![IpPrefix::host(CLIENT)], None);
    assert!(matches!(make_packet_for_resource(&mut full, v4(100, 64, 0, 2), packet, None), Ok(None)));
}

#[test]
fn full_tunnel_peer_passes_packets_through() {
    let mut p = lonely(vec![net(10, 0, 0, 0, 8)], None);
    let packet = udp_packet(v4(10, 0, 0, 5), CLIENT, b"reply");
    assert!(p.get_packet_resource(&packet).is_none());
    let routed = make_packet_for_resource(&mut p, v4(10, 0, 0, 5), packet.clone(), None).unwrap().unwrap();
    assert_eq!(bytes_of(routed), packet);
    let not_ip = vec![1, 2, 3];
    let routed = make_packet_for_resource(&mut p, v4(10, 0, 0, 5), not_ip.clone(), None).unwrap().unwrap();
    assert_eq!(bytes_of(routed), not_ip);
}

#[test]
fn packet_for_a_named_resource_waits_for_its_name() {
    let mut p = lonely(vec![IpPrefix::host(CLIENT)], Some((dns(1, "a.example:443"), at(100))));
    let packet = udp_packet(CLIENT, IpAddress::V4(ASSIGNED), b"hello");
    assert_eq!(p.lookup_needed(CLIENT, &packet), Some("a.example".to_string()));
    assert_eq!(p.lookup_needed(v4(100, 64, 0, 2), &packet), None);
    let Ok(Some(WriteTo::Resolve(pending))) = p.deliver(CLIENT, packet.clone()) else {
        panic!("the packet has to wait")
    };
    assert_eq!(pending.host, "a.example");
    assert_eq!(pending.addr, CLIENT);
    assert_eq!(pending.packet, packet);
    assert!(p.stats().translated_resource_addresses.is_empty());

    let resolved = vec![RESOLVED];
    let routed = make_packet_for_resource(&mut p, pending.addr, pending.packet, Some(&resolved));
    let bytes = bytes_of(routed.unwrap().unwrap());
    assert_eq!(destination(&bytes), Some(RESOLVED));
    assert_eq!(source(&bytes), Some(CLIENT));
    assert_eq!(bytes, update_packet(packet, RESOLVED));
    assert_eq!(p.get_translation(RESOLVED).unwrap().id(), 1);
}

#[test]
fn packet_for_a_named_resource_that_does_not_resolve_is_an_error() {
    let mut p = lonely(vec![IpPrefix::host(CLIENT)], Some((dns(1, "a.example"), at(100))));
    let packet = udp_packet(CLIENT, IpAddress::V4(ASSIGNED), b"hello");
    assert_eq!(
        make_packet_for_resource(&mut p, CLIENT, packet, None).err(),
        Some(Error::InvalidResource)
    );
}

#[test]
fn make_packet_frames_by_the_family_of_the_address() {
    assert!(matches!(make_packet(vec![1], v4(1, 1, 1, 1)), Packet::Ipv4(b) if b == vec![1]));
    assert!(matches!(make_packet(vec![2], IpAddress::V6(1)), Packet::Ipv6(b) if b == vec![2]));
}

#[test]
fn outgoing_packet_from_a_resolved_address_takes_the_assigned_source() {
    let mut p = lonely(vec![IpPrefix::host(CLIENT)], Some((dns(1, "a.example"), at(100))));
    p.update_translated_resource_address(1, RESOLVED);
    let reply = udp_packet(RESOLVED, CLIENT, b"reply");
    let mut packet = MutableIpPacket::new(&reply).unwrap();
    assert_eq!(p.translate_source(&mut packet), Ok(()));
    assert_eq!(packet.source(), IpAddress::V4(ASSIGNED));
    assert_eq!(packet.destination(), CLIENT);
    let mut expected = MutableIpPacket::new(&reply).unwrap();
    expected.set_src(IpAddress::V4(ASSIGNED));
    expected.update_checksum();
    assert_eq!(packet.packet(), expected.packet());
    assert_ne!(packet.packet(), &reply[..]);

    let other = udp_packet(v4(8, 8, 8, 8), CLIENT, b"reply");
    let mut untouched = MutableIpPacket::new(&other).unwrap();
    assert_eq!(p.translate_source(&mut untouched), Ok(()));
    assert_eq!(untouched.packet(), &other[..]);
}

#[test]
fn translation_to_a_network_resource_is_a_protocol_error() {
    let mut p = lonely(vec![IpPrefix::host(CLIENT)], Some((cidr(1, net(10, 0, 0, 0, 24)), at(100))));
    p.update_translated_resource_address(1, v4(10, 0, 0, 5));
    let reply = udp_packet(v4(10, 0, 0, 5), CLIENT, b"reply");
    let mut packet = MutableIpPacket::new(&reply).unwrap();
    assert_eq!(p.translate_source(&mut packet), Err(Error::ControlProtocolError));
    assert_eq!(packet.packet(), &reply[..]);
    let mut buf = scratch();
    assert_eq!(
        p.encapsulate(MutableIpPacket::new(&reply).unwrap(), CLIENT, &mut buf),
        Err(Error::ControlProtocolError)
    );
}

#[test]
fn network_reply_reads_the_start_of_the_buffer() {
    let buf = vec![1u8, 2, 3, 4, 5];
    assert_eq!(network_reply(SessionReply::Done, &buf), Ok(None));
    assert_eq!(network_reply(SessionReply::WriteToNetwork(3), &buf), Ok(Some(vec![1, 2, 3])));
    assert_eq!(network_reply(SessionReply::WriteToNetwork(0), &buf), Ok(Some(vec![])));
    assert_eq!(
        network_reply(SessionReply::Refused(WireGuardFault::ConnectionExpired), &buf),
        Err(Error::WireguardError(WireGuardFault::ConnectionExpired))
    );
}

#[test]
fn fatal_errors_are_those_that_end_a_connection() {
    assert!(Error::WireguardError(WireGuardFault::ConnectionExpired).is_fatal_connection_error());
    assert!(Error::WireguardError(WireGuardFault::NoCurrentSession).is_fatal_connection_error());
    assert!(!Error::WireguardError(WireGuardFault::Other).is_fatal_connection_error());
    assert!(!Error::ControlProtocolError.is_fatal_connection_error());
    assert!(!Error::InvalidResource.is_fatal_connection_error());
    assert!(!Error::InvalidSource.is_fatal_connection_error());
    assert!(!Error::Io(firezone_tunnel::error::IoError::InvalidInput).is_fatal_connection_error());
    assert!(!Error::Io(firezone_tunnel::error::IoError::Os(5)).is_fatal_connection_error());
    assert!(Error::Transport(firezone_tunnel::error::TransportFault::StreamClosed).is_fatal_connection_error());
    assert!(!Error::Transport(firezone_tunnel::error::TransportFault::Other).is_fatal_connection_error());
}

#[test]
fn session_answers_are_acted_on() {
    let grant = (cidr(1, net(10, 0, 0, 0, 24)), at(100));
    let mut p = lonely(vec![IpPrefix::host(CLIENT)], Some(grant));
    let mut dst = scratch();
    assert!(matches!(p.handle_decapsulated(SessionReply::Done, &mut dst), Ok(None)));
    assert_eq!(
        p.handle_decapsulated(SessionReply::Refused(WireGuardFault::Other), &mut dst).err(),
        Some(Error::WireguardError(WireGuardFault::Other))
    );
    let inside = udp_packet(CLIENT, v4(10, 0, 0, 5), b"hello");
    dst[..inside.len()].copy_from_slice(&inside);
    let IpAddress::V4(client) = CLIENT else { unreachable!() };
    let reply = SessionReply::WriteToTunnelV4(inside.len(), client);
    let Ok(Some(WriteTo::Resource(packet))) = p.handle_decapsulated(reply, &mut dst) else {
        panic!("the packet is for the device")
    };
    assert_eq!(bytes_of(packet), inside);
    let outside = udp_packet(CLIENT, v4(10, 0, 1, 5), b"hello");
    dst[..outside.len()].copy_from_slice(&outside);
    let reply = SessionReply::WriteToTunnelV4(outside.len(), client);
    assert!(matches!(p.handle_decapsulated(reply, &mut dst), Ok(None)));
    let reply = SessionReply::WriteToTunnelV4(inside.len(), client + 1);
    dst[..inside.len()].copy_from_slice(&inside);
    assert!(matches!(p.handle_decapsulated(reply, &mut dst), Ok(None)));
}

#[test]
fn message_for_the_peer_is_sent_back_first() {
    let mut p = lonely(vec![], None);
    let mut dst = scratch();
    dst[..4].copy_from_slice(&[9, 8, 7, 6]);
    let Ok(Some(WriteTo::Network(messages))) = p.handle_decapsulated(SessionReply::WriteToNetwork(4), &mut dst)
    else {
        panic!("the message is for the peer")
    };
    assert_eq!(messages.len(), 1);
    assert_eq!(messages[0], vec![9, 8, 7, 6]);
}

#[test]
fn datagram_without_a_session_ends_the_connection() {
    let mut p = lonely(vec![], None);
    let mut dst = scratch();
    let mut data = vec![4u8, 0, 0, 0, 1, 0, 0, 0];
    data.extend_from_slice(&[0u8; 8]);
    data.extend_from_slice(&[0u8; 16]);
    let e = p.decapsulate(&data, &mut dst).err().unwrap();
    assert_eq!(e, Error::WireguardError(WireGuardFault::NoCurrentSession));
    assert!(e.is_fatal_connection_error());
}

#[test]
fn garbage_is_refused_without_ending_the_connection() {
    let mut p = lonely(vec![], None);
    let mut dst = scratch();
    let e = p.decapsulate(&[1, 2, 3], &mut dst).err().unwrap();
    assert_eq!(e, Error::WireguardError(WireGuardFault::Other));
    assert!(!e.is_fatal_connection_error());
    let e = p.decapsulate(&[9u8; 200], &mut dst).err().unwrap();
    assert_eq!(e, Error::WireguardError(WireGuardFault::Other));
}

#[test]
fn first_packet_starts_a_handshake() {
    let mut p = lonely(vec![], None);
    let mut buf = scratch();
    let packet = udp_packet(CLIENT, v4(10, 0, 0, 5), b"hello");
    let dest = v4(10, 0, 0, 5);
    let first = p.encapsulate(MutableIpPacket::new(&packet).unwrap(), dest, &mut buf).unwrap().unwrap();
    assert_eq!(first.len(), 148);
    assert_eq!(&first[..4], &[1, 0, 0, 0]);
    assert_eq!(&buf[..148], &first[..]);
    let second = p.encapsulate(MutableIpPacket::new(&packet).unwrap(), dest, &mut buf).unwrap();
    assert_eq!(second, None);
}

#[test]
fn timers_of_a_fresh_session_ask_for_little() {
    let mut p = lonely(vec![net(10, 0, 0, 0, 24)], Some((cidr(1, net(10, 0, 0, 0, 24)), at(100))));
    match p.update_timers() {
        Ok(None) => {}
        Ok(Some(bytes)) => assert!(bytes.len() <= 148),
        Err(e) => panic!("a fresh session has not expired: {e:?}"),
    }
    assert_eq!(p.stats().allowed_ips, vec![net(10, 0, 0, 0, 24)]);
    assert_eq!(p.stats().network_resources.len(), 1);
}

#[test]
fn packet_survives_the_tunnel() {
    let client_key = [11u8; 32];
    let gateway_key = [22u8; 32];
    let mut at_client = peer(client_key, gateway_key, 1, vec![net(10, 0, 0, 0, 24)], 1, None);
    let grant = (cidr(1, net(10, 0, 0, 0, 24)), at(100));
    let mut at_gateway = peer(gateway_key, client_key, 2, vec![IpPrefix::host(CLIENT)], 2, Some(grant));

    let packet = udp_packet(CLIENT, v4(10, 0, 0, 5), b"through the tunnel");
    let mut outcomes = carry(&mut at_client, &mut at_gateway, packet.clone());
    assert_eq!(outcomes.len(), 1);
    let Ok(Some(WriteTo::Resource(arrived))) = outcomes.remove(0) else {
        panic!("the packet is for the device")
    };
    assert!(matches!(arrived, Packet::Ipv4(_)));
    assert_eq!(bytes_of(arrived), packet);

    // From now on the sessions have keys: a packet goes out as one
    // message, which does not show the packet.
    let mut buf = scratch();
    let mut dst = scratch();
    let second = udp_packet(CLIENT, v4(10, 0, 0, 6), b"and once more, with feeling");
    let wrapped = at_client
        .encapsulate(MutableIpPacket::new(&second).unwrap(), v4(10, 0, 0, 6), &mut buf)
        .unwrap()
        .unwrap();
    assert_eq!(wrapped.len(), second.len() + 32);
    assert_eq!(&wrapped[..4], &[4, 0, 0, 0]);
    assert!(!wrapped.windows(8).any(|w| w == &second[second.len() - 8..]));
    let Ok(Some(WriteTo::Resource(arrived))) = at_gateway.decapsulate(&wrapped, &mut dst) else {
        panic!("the packet is for the device")
    };
    assert_eq!(bytes_of(arrived), second);

    // And back.
    let reply = udp_packet(v4(10, 0, 0, 6), CLIENT, b"pong");
    let wrapped = at_gateway
        .encapsulate(MutableIpPacket::new(&reply).unwrap(), CLIENT, &mut buf)
        .unwrap()
        .unwrap();
    let Ok(Some(WriteTo::Resource(arrived))) = at_client.decapsulate(&wrapped, &mut dst) else {
        panic!("the packet is for the device")
    };
    assert_eq!(bytes_of(arrived), reply);
}

#[test]
fn tunnel_drops_what_the_peer_may_not_reach() {
    let client_key = [11u8; 32];
    let gateway_key = [22u8; 32];
    let mut at_client = peer(client_key, gateway_key, 1, vec![net(10, 0, 0, 0, 8)], 1, None);
    let grant = (cidr(1, net(10, 0, 0, 0, 24)), at(100));
    let mut at_gateway = peer(gateway_key, client_key, 2, vec![IpPrefix::host(CLIENT)], 2, Some(grant));
    let packet = udp_packet(CLIENT, v4(10, 0, 1, 5), b"not granted");
    let outcomes = carry(&mut at_client, &mut at_gateway, packet);
    assert!(outcomes.is_empty());
}

#[test]
fn named_resource_is_translated_both_ways() {
    let client_key = [11u8; 32];
    let gateway_key = [22u8; 32];
    let assigned = IpAddress::V4(ASSIGNED);
    let mut at_client = peer(client_key, gateway_key, 1, vec![IpPrefix::host(assigned)], 1, None);
    let grant = (dns(1, "a.example:443"), at(100));
    let mut at_gateway = peer(gateway_key, client_key, 2, vec![IpPrefix::host(CLIENT)], 2, Some(grant));

    let packet = udp_packet(CLIENT, assigned, b"query");
    let mut outcomes = carry(&mut at_client, &mut at_gateway, packet.clone());
    assert_eq!(outcomes.len(), 1);
    let Ok(Some(WriteTo::Resolve(pending))) = outcomes.remove(0) else {
        panic!("the packet has to wait for its name")
    };
    assert_eq!(pending.host, "a.example");
    let resolved = vec![RESOLVED];
    let routed = make_packet_for_resource(&mut at_gateway, pending.addr, pending.packet, Some(&resolved));
    let bytes = bytes_of(routed.unwrap().unwrap());
    assert_eq!(destination(&bytes), Some(RESOLVED));
    assert_eq!(bytes, update_packet(packet, RESOLVED));

    let mut buf = scratch();
    let mut dst = scratch();
    let reply = udp_packet(RESOLVED, CLIENT, b"answer");
    let wrapped = at_gateway
        .encapsulate(MutableIpPacket::new(&reply).unwrap(), CLIENT, &mut buf)
        .unwrap()
        .unwrap();
    let Ok(Some(WriteTo::Resource(arrived))) = at_client.decapsulate(&wrapped, &mut dst) else {
        panic!("the reply is for the device")
    };
    let arrived = bytes_of(arrived);
    assert_eq!(source(&arrived), Some(assigned));
    assert_eq!(destination(&arrived), Some(CLIENT));
    let mut expected = MutableIpPacket::new(&reply).unwrap();
    expected.set_src(assigned);
    expected.update_checksum();
    assert_eq!(arrived, expected.into_bytes());
}

#[test]
fn packet_for_a_granted_network_keeps_even_a_wrong_checksum() {
    let grant = (cidr(1, net(10, 0, 0, 0, 24)), at(100));
    let mut p = lonely(vec![IpPrefix::host(CLIENT)], Some(grant));
    let mut packet = udp_packet(CLIENT, v4(10, 0, 0, 5), b"hello");
    packet[10] ^= 0xff;
    packet[26] ^= 0xff;
    let routed = make_packet_for_resource(&mut p, CLIENT, packet.clone(), None).unwrap().unwrap();
    assert_eq!(bytes_of(routed), packet);
}

#[test]
fn flush_step_takes_messages_only() {
    let dst = vec![1u8, 2, 3, 4, 5];
    let mut packets: VecDeque<Vec<u8>> = VecDeque::from([vec![9u8]]);
    assert!(flush_step(&mut packets, SessionReply::WriteToNetwork(3), &dst));
    assert_eq!(packets, VecDeque::from([vec![9u8], vec![1, 2, 3]]));
    assert!(!flush_step(&mut packets, SessionReply::Done, &dst));
    assert!(!flush_step(&mut packets, SessionReply::Refused(WireGuardFault::Other), &dst));
    assert!(!flush_step(&mut packets, SessionReply::WriteToTunnelV4(2, 7), &dst));
    assert_eq!(packets.len(), 2);
    assert!(flush_step(&mut packets, SessionReply::WriteToNetwork(0), &dst));
    assert_eq!(packets, VecDeque::from([vec![9u8], vec![1, 2, 3], vec![]]));
}

#[test]
fn session_gives_up_what_it_held_back_in_order() {
    let client_key = [11u8; 32];
    let gateway_key = [22u8; 32];
    let mut at_client = peer(client_key, gateway_key, 1, vec![net(10, 0, 0, 0, 24)], 1, None);
    let mut at_gateway = peer(gateway_key, client_key, 2, vec![IpPrefix::host(CLIENT)], 2, None);
    let mut buf = scratch();
    let mut dst = scratch();
    let first = udp_packet(CLIENT, v4(10, 0, 0, 5), b"first");
    let second = udp_packet(CLIENT, v4(10, 0, 0, 6), b"the second one");
    let init = at_client
        .encapsulate(MutableIpPacket::new(&first).unwrap(), v4(10, 0, 0, 5), &mut buf)
        .unwrap()
        .unwrap();
    assert_eq!(at_client.encapsulate(MutableIpPacket::new(&second).unwrap(), v4(10, 0, 0, 6), &mut buf), Ok(None));

    // The gateway's session holds nothing back: one message, the response.
    let Ok(Some(WriteTo::Network(replies))) = at_gateway.decapsulate(&init, &mut dst) else {
        panic!("a response")
    };
    assert_eq!(replies.len(), 1);
    assert_eq!(replies[0].len(), 92);

    // The client's session held two packets back: a keepalive, then both.
    let Ok(Some(WriteTo::Network(messages))) = at_client.decapsulate(&replies[0], &mut dst) else {
        panic!("messages")
    };
    assert_eq!(messages.len(), 3);
    assert_eq!(messages[0].len(), 32);
    assert_eq!(messages[1].len(), first.len() + 32);
    assert_eq!(messages[2].len(), second.len() + 32);
    assert!(matches!(at_gateway.decapsulate(&messages[0], &mut dst), Ok(None)));
    let Ok(Some(WriteTo::Resource(arrived))) = at_gateway.decapsulate(&messages[1], &mut dst) else {
        panic!("the first packet")
    };
    assert_eq!(bytes_of(arrived), first);
    let Ok(Some(WriteTo::Resource(arrived))) = at_gateway.decapsulate(&messages[2], &mut dst) else {
        panic!("the second packet")
    };
    assert_eq!(bytes_of(arrived), second);
}
