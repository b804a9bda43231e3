use firezone_tunnel::device_channel::{Device, DeviceIo, IfaceConfig, Packet, Poll};
use firezone_tunnel::error::IoError;
use firezone_tunnel::event::{
    mtu_refresh_interval, peer_refresh_interval, rate_limit_reset_interval, DnsQuery, IntervalSpec,
    Signals,
};

fn ipv4_bytes(len: usize) -> Vec<u8> {
    let mut p = vec![0u8; len];
    p[0] = 0x45;
    p[2..4].copy_from_slice(&(len as u16).to_be_bytes());
    p
}

#[test]
fn read_without_a_reading_is_pending() {
    let mut io = DeviceIo::new();
    let mut buf = vec![9u8; 8];
    assert!(matches!(io.poll_read(&mut buf, 8), Poll::Pending));
    assert_eq!(buf, vec![9u8; 8]);
}

#[test]
fn read_copies_the_oldest_reading() {
    let mut io = DeviceIo::new();
    io.feed(Ok(vec![1, 2, 3]));
    io.feed(Ok(vec![4, 5]));
    let mut buf = vec![9u8; 8];
    assert!(matches!(io.poll_read(&mut buf, 8), Poll::Ready(Ok(3))));
    assert_eq!(buf, vec![1, 2, 3, 9, 9, 9, 9, 9]);
    assert!(matches!(io.poll_read(&mut buf, 8), Poll::Ready(Ok(2))));
    assert_eq!(buf, vec![4, 5, 3, 9, 9, 9, 9, 9]);
    assert!(matches!(io.poll_read(&mut buf, 8), Poll::Pending));
}

#[test]
fn read_cuts_a_reading_to_the_limit() {
    let mut io = DeviceIo::new();
    io.feed(Ok(vec![1, 2, 3, 4, 5, 6]));
    let mut buf = vec![9u8; 8];
    assert!(matches!(io.poll_read(&mut buf, 4), Poll::Ready(Ok(4))));
    assert_eq!(buf, vec![1, 2, 3, 4, 9, 9, 9, 9]);
    io.feed(Ok(vec![7]));
    assert!(matches!(io.poll_read(&mut buf, 0), Poll::Ready(Ok(0))));
    assert_eq!(buf, vec![1, 2, 3, 4, 9, 9, 9, 9]);
}

#[test]
fn read_hands_on_failures_and_the_end() {
    let mut io = DeviceIo::new();
    io.feed(Err(IoError::Os(5)));
    io.feed(Ok(vec![]));
    let mut buf = vec![9u8; 8];
    assert!(matches!(io.poll_read(&mut buf, 8), Poll::Ready(Err(IoError::Os(5)))));
    assert!(matches!(io.poll_read(&mut buf, 8), Poll::Ready(Ok(0))));
    assert_eq!(buf, vec![9u8; 8]);
}

#[test]
fn write_queues_packets_in_order() {
    let mut io = DeviceIo::new();
    assert!(io.take_written().is_none());
    assert_eq!(io.write(Packet::Ipv4(vec![1, 2, 3])), Ok(3));
    assert_eq!(io.write(Packet::Ipv6(vec![])), Ok(0));
    assert!(matches!(io.take_written(), Some(Packet::Ipv4(b)) if b == vec![1, 2, 3]));
    assert!(matches!(io.take_written(), Some(Packet::Ipv6(b)) if b.is_empty()));
    assert!(io.take_written().is_none());
}

#[test]
fn packet_length_is_that_of_its_bytes() {
    assert_eq!(Packet::Ipv4(vec![1, 2, 3]).len(), 3);
    assert_eq!(Packet::Ipv6(vec![]).len(), 0);
}

#[test]
fn mtu_is_what_was_set() {
    let mut config = IfaceConfig::new(1280);
    assert_eq!(config.mtu(), 1280);
    config.set_mtu(1420);
    assert_eq!(config.mtu(), 1420);
}

#[test]
fn device_reads_packets() {
    let mut device = Device { config: IfaceConfig::new(1280), io: DeviceIo::new() };
    let mut buf = vec![0u8; 65535];
    assert!(matches!(device.poll_read(&mut buf), Poll::Pending));
    device.io.feed(Ok(ipv4_bytes(60)));
    let Poll::Ready(Ok(Some(packet))) = device.poll_read(&mut buf) else { panic!("a packet") };
    assert_eq!(packet.packet(), &ipv4_bytes(60)[..]);
    assert!(matches!(device.poll_read(&mut buf), Poll::Pending));
}

#[test]
fn device_cuts_packets_to_the_mtu() {
    let mut device = Device { config: IfaceConfig::new(40), io: DeviceIo::new() };
    let mut buf = vec![0u8; 65535];
    device.io.feed(Ok(ipv4_bytes(60)));
    let Poll::Ready(Ok(Some(packet))) = device.poll_read(&mut buf) else { panic!("a packet") };
    assert_eq!(packet.len(), 40);
    assert_eq!(packet.packet(), &ipv4_bytes(60)[..40]);
}

#[test]
fn device_end_is_no_packet() {
    let mut device = Device { config: IfaceConfig::new(1280), io: DeviceIo::new() };
    let mut buf = vec![0u8; 65535];
    device.io.feed(Ok(vec![]));
    assert!(matches!(device.poll_read(&mut buf), Poll::Ready(Ok(None))));
}

#[test]
fn device_refuses_what_is_no_ip_packet() {
    let mut device = Device { config: IfaceConfig::new(1280), io: DeviceIo::new() };
    let mut buf = vec![0u8; 65535];
    device.io.feed(Ok(vec![0x45; 10]));
    device.io.feed(Ok(vec![0x15; 60]));
    device.io.feed(Err(IoError::Os(11)));
    assert!(matches!(device.poll_read(&mut buf), Poll::Ready(Err(IoError::InvalidInput))));
    assert!(matches!(device.poll_read(&mut buf), Poll::Ready(Err(IoError::InvalidInput))));
    assert!(matches!(device.poll_read(&mut buf), Poll::Ready(Err(IoError::Os(11)))));
}

#[test]
fn timers_run_every_second_and_every_thirty() {
    assert_eq!(rate_limit_reset_interval(), IntervalSpec { period_secs: 1, delay_missed_ticks: true });
    assert_eq!(peer_refresh_interval(), IntervalSpec { period_secs: 1, delay_missed_ticks: true });
    assert_eq!(mtu_refresh_interval(), IntervalSpec { period_secs: 30, delay_missed_ticks: true });
}

#[test]
fn fresh_signals_are_clear() {
    let s = Signals::new();
    assert!(!s.rate_limit_reset);
    assert!(!s.peer_refresh);
    assert!(!s.mtu_refresh);
    assert!(s.stop_requests.is_empty());
}

#[test]
fn owned_query_keeps_its_fields() {
    let q = DnsQuery { name: "a.example".to_string(), record_type: 28, query: vec![0x45, 1, 2] };
    let owned = q.into_owned();
    assert_eq!(owned.name, "a.example");
    assert_eq!(owned.record_type, 28);
    assert_eq!(owned.query, vec![0x45, 1, 2]);
}

#[test]
fn device_leaves_the_rest_of_the_buffer_alone() {
    let mut device = Device { config: IfaceConfig::new(24), io: DeviceIo::new() };
    let mut buf = vec![7u8; 64];
    device.io.feed(Ok(ipv4_bytes(60)));
    let Poll::Ready(Ok(Some(packet))) = device.poll_read(&mut buf) else { panic!("a packet") };
    assert_eq!(packet.len(), 24);
    assert_eq!(&buf[..24], &ipv4_bytes(60)[..24]);
    assert_eq!(&buf[24..], &[7u8; 40][..]);
    device.io.feed(Err(IoError::Os(1)));
    let before = buf.clone();
    assert!(matches!(device.poll_read(&mut buf), Poll::Ready(Err(IoError::Os(1)))));
    assert_eq!(buf, before);
}
