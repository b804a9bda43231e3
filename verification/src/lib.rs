//! Data-plane core of a peer-to-peer virtual private network.
//!
//! A [`tunnel::Tunnel`] multiplexes one network-interface device against
//! many encrypted peer links. Each link is a [`peer::Peer`]: a WireGuard
//! session together with the prefixes the peer may use, the resources it
//! was granted and the address translations recorded for it.
//!
//! Everything here is synchronous and free of I/O. The caller owns the
//! device, the transports and the clocks; it hands in what it read and
//! carries out the [`event::Action`]s it gets back.

pub mod device_channel;
pub mod error;
pub mod event;
pub mod ip;
pub mod ip_packet;
pub mod noise;
pub mod peer;
pub mod resource;
pub mod resource_table;
pub mod table;
pub mod time;
pub mod translation;
pub mod tunnel;

use vstd::prelude::*;

verus! {

/// Largest datagram that fits the scratch buffers.
pub const MAX_UDP_SIZE: usize = 65535;

} // verus!
