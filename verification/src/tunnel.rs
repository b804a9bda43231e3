//! The tunnel coordinator: routes, peers, the teardown queue and the
//! device, and the one step that turns what has come up into work and
//! events.

use crate::device_channel::{read_outcome, Device, DeviceIoState, Packet, Poll, Reading};
use crate::error::{Error, IoError};
use crate::event::{Action, ActionView, ChannelId, Event, Signals, SignalsState};
use crate::ip::{IpAddress, IpPrefix};
use crate::ip_packet::{IpVersion, MutableIpPacket};
use crate::noise::{
    public_key_of, rate_limiter_new, rate_limiter_reset, rate_limiter_share, x25519_public_key, DATA_OVERHEAD,
};
use crate::peer::{
    bytes_of, make_packet_for_resource, ConnId, Peer, PeerState, PeerStats, PendingPacket, WriteTo, WriteToView,
};
use crate::table::{
    is_longest_match, table_entries, table_insert, table_iter, table_longest_match, table_new, table_remove,
};
use crate::time::{now, Timestamp};
use crate::MAX_UDP_SIZE;
use boringtun::noise::rate_limiter::RateLimiter;
use ip_network_table::IpNetworkTable;
use std::collections::VecDeque;
use std::sync::Arc;
use vstd::prelude::*;

verus! {

/// Handshakes that are answered in one counting period before the
/// sessions ask for a cookie.
pub const HANDSHAKE_RATE_LIMIT: u64 = 100;

/// A peer and the channel that carries its traffic.
pub struct ConnectedPeer {
    pub inner: Peer,
    pub channel: ChannelId,
}

/// The state that differs by role. The coordinator advances it, and does
/// nothing else to it.
///
/// The methods promise nothing here. What the coordinator's contracts
/// say of the role, they say through what the method of the role that
/// was called ensures of that call: which method was called, on which
/// state and with which arguments, and that the state it left is the
/// state that the next call finds.
pub trait RoleState: Default {
    /// Advances the state and gives the next event for the application,
    /// if there is one.
    fn poll_next_event(&mut self) -> Poll<Event>;
}

/// What the role makes of a packet that may be a DNS query.
pub enum DnsVerdict {
    /// The packet is a query that the role answers itself.
    Respond(Packet),
    /// The packet is a query that the role has taken; there is nothing
    /// to send back yet.
    Claimed,
    /// The packet is not for the role. It is routed.
    NotDns,
}

/// What the initiating role adds: it intercepts DNS queries and learns of
/// traffic that no peer serves.
pub trait InitiatorState: RoleState {
    fn handle_dns(&mut self, packet: &MutableIpPacket) -> DnsVerdict;

    fn on_connection_intent(&mut self, dest: IpAddress);
}

/// Whether the role's own `poll_next_event`, called through `role`,
/// answers `r`.
pub open spec fn polled<R: RoleState>(role: &mut R, r: Poll<Event>) -> bool {
    call_ensures(R::poll_next_event, (role,), r)
}

/// Whether a role that is asked for an event through each of `asks` has
/// none each time.
pub open spec fn all_pending<R: RoleState>(asks: Seq<&mut R>) -> bool {
    forall|i: int| 0 <= i < asks.len() ==> polled(#[trigger] asks[i], Poll::Pending)
}

/// Whether a role that is asked for an event through each of `asks` in
/// turn has none each time but the last, and answers `r` the last time.
pub open spec fn asked_until<R: RoleState>(asks: Seq<&mut R>, r: Poll<Event>) -> bool {
    &&& asks.len() > 0
    &&& forall|i: int| 0 <= i < asks.len() - 1 ==> polled(#[trigger] asks[i], Poll::Pending)
    &&& polled(asks.last(), r)
}

/// Whether the role's own `handle_dns`, called through `role`, makes
/// `verdict` of a packet of these bytes.
pub open spec fn looked<R: InitiatorState>(role: &mut R, packet: Seq<u8>, verdict: DnsVerdict) -> bool {
    exists|p: MutableIpPacket| p@ == packet && #[trigger] call_ensures(R::handle_dns, (role, &p), verdict)
}

/// Whether the role's own `on_connection_intent`, called through `role`,
/// is told of `dest`.
pub open spec fn told<R: InitiatorState>(role: &mut R, dest: IpAddress) -> bool {
    call_ensures(R::on_connection_intent, (role, dest), ())
}

/// Whether the role looked at each of `packets` through the reference
/// of its place in `looks` and made of it the verdict of its place in
/// `verdicts`, and was told through the reference of its place in
/// `tells` where each of them wanted to go that no peer of `state`
/// serves.
pub open spec fn role_read<R: InitiatorState>(
    state: TunnelState,
    packets: Seq<Seq<u8>>,
    verdicts: Seq<DnsVerdict>,
    looks: Seq<&mut R>,
    tells: Seq<&mut R>,
) -> bool {
    &&& verdicts.len() == packets.len()
    &&& looks.len() == packets.len()
    &&& tells.len() == packets.len()
    &&& forall|i: int| 0 <= i < packets.len() ==> looked(#[trigger] looks[i], packets[i], verdicts[i])
    &&& forall|i: int|
        0 <= i < packets.len() && state.unserved(packets[i], verdicts[i]) ==> told(
            #[trigger] tells[i],
            crate::ip_packet::destination_of(packets[i])->0,
        )
}

/// What a tunnel is, apart from the sessions of its peers and the state
/// of its role.
pub struct TunnelState {
    pub public_key: Seq<u8>,
    /// Which peer a network is routed to.
    pub routes: Map<IpPrefix, ConnId>,
    /// The peers.
    pub peers: Seq<PeerState>,
    /// The channel of each peer.
    pub channels: Seq<ChannelId>,
    /// The peers that have an open connection.
    pub connections: Set<ConnId>,
    /// The peers that wait to be stopped, oldest first.
    pub to_stop: Seq<ConnId>,
    /// The work that waits to be taken, oldest first.
    pub actions: Seq<ActionView>,
    /// The device, if one is attached.
    pub device: Option<DeviceState>,
    /// Whether reading from the device is suspended until one is
    /// attached.
    pub awaiting_device: bool,
}

/// What an attached device is.
pub struct DeviceState {
    /// The largest packet the device takes.
    pub mtu: usize,
    /// What the device handed over and was not read yet, and what was
    /// written to it and not taken yet.
    pub io: DeviceIoState,
}

/// Why reading packets from the device stops.
pub enum IngressStop {
    /// There is nothing to read yet.
    Pending,
    /// The device has come to its end.
    Ended,
    /// The device failed.
    Failed(IoError),
}

/// The packets that reading takes up before it stops, in their order.
pub open spec fn ingress_packets(unread: Seq<Result<Seq<u8>, IoError>>, mtu: int) -> Seq<Seq<u8>>
    decreases unread.len(),
{
    if unread.len() == 0 {
        Seq::empty()
    } else {
        match read_outcome(unread[0], mtu) {
            Ok(Some(packet)) => seq![packet] + ingress_packets(unread.drop_first(), mtu),
            _ => Seq::empty(),
        }
    }
}

/// The packets among `packets` that the role left to be routed, where
/// `verdicts` is what the role made of each, in their order.
pub open spec fn unclaimed(packets: Seq<Seq<u8>>, verdicts: Seq<DnsVerdict>) -> Seq<Seq<u8>>
    decreases packets.len(),
{
    if packets.len() == 0 || verdicts.len() != packets.len() {
        Seq::empty()
    } else if verdicts.last() is NotDns {
        unclaimed(packets.drop_last(), verdicts.drop_last()).push(packets.last())
    } else {
        unclaimed(packets.drop_last(), verdicts.drop_last())
    }
}

/// The packets that the role answered with, in their order.
pub open spec fn responses(verdicts: Seq<DnsVerdict>) -> Seq<(IpVersion, Seq<u8>)>
    decreases verdicts.len(),
{
    if verdicts.len() == 0 {
        Seq::empty()
    } else {
        match verdicts.last() {
            DnsVerdict::Respond(packet) => responses(verdicts.drop_last()).push(packet@),
            _ => responses(verdicts.drop_last()),
        }
    }
}

/// Whether `r` is what reading from the device gives where it stops for
/// `stop`: a pending poll, nothing at the end of the device, or the
/// failure as an error.
pub open spec fn ingress_result(r: Poll<Result<Option<Event>, Error>>, stop: IngressStop) -> bool {
    match stop {
        IngressStop::Pending => r is Pending,
        IngressStop::Ended => r matches Poll::Ready(Ok(None)),
        IngressStop::Failed(e) => r matches Poll::Ready(Err(f)) && f == Error::Io(e),
    }
}

/// The device once reading from it has stopped: what was read is gone.
pub open spec fn after_ingress(d: DeviceState, now: DeviceState) -> bool {
    &&& now.mtu == d.mtu
    &&& now.io.unread == d.io.unread.skip(ingress_stop(d.io.unread, d.mtu as int).0 as int)
    &&& d.io.written.is_prefix_of(now.io.written)
}

/// How many readings are taken up before reading stops, and why it
/// stops: reading goes on over packets and stops where nothing is left,
/// at the end of the device (a reading without bytes) and at a failure.
pub open spec fn ingress_stop(unread: Seq<Result<Seq<u8>, IoError>>, mtu: int) -> (nat, IngressStop)
    decreases unread.len(),
{
    if unread.len() == 0 {
        (0nat, IngressStop::Pending)
    } else {
        match read_outcome(unread[0], mtu) {
            Ok(Some(_)) => {
                let rest = ingress_stop(unread.drop_first(), mtu);
                (rest.0 + 1, rest.1)
            },
            Ok(None) => (1nat, IngressStop::Ended),
            Err(e) => (1nat, IngressStop::Failed(e)),
        }
    }
}

impl TunnelState {
    /// Whether a device is attached.
    pub open spec fn has_device(self) -> bool {
        self.device is Some
    }

    /// Whether a peer `id` is registered.
    pub open spec fn has_peer(self, id: ConnId) -> bool {
        exists|i: int| 0 <= i < self.peers.len() && (#[trigger] self.peers[i]).conn_id == id
    }

    /// Whether some network is routed to peer `id`.
    pub open spec fn routed(self, id: ConnId) -> bool {
        exists|p: IpPrefix| #[trigger] self.routes.contains_key(p) && self.routes[p] == id
    }

    /// The peer to which `ip` is routed: see [`owner_of`].
    pub open spec fn route_of(self, ip: IpAddress) -> Option<ConnId> {
        owner_of(self.routes, ip)
    }

    /// Whether there is a device and reading from it stops on a failure.
    pub open spec fn reading_fails(self) -> bool {
        self.device matches Some(d) && ingress_stop(d.io.unread, d.mtu as int).1 is Failed
    }

    /// The packets that reading takes from the device, in their order.
    pub open spec fn reads(self) -> Seq<Seq<u8>> {
        ingress_packets(self.device->0.io.unread, self.device->0.mtu as int)
    }

    /// Whether `packet`, of which the role made `verdict`, is left to be
    /// routed and goes where no peer serves.
    pub open spec fn unserved(self, packet: Seq<u8>, verdict: DnsVerdict) -> bool {
        verdict is NotDns && self.route_of(crate::ip_packet::destination_of(packet)->0) is None
    }

    /// The peers once `peer` is registered: it takes the place of a peer
    /// of its identity, or comes last.
    pub open spec fn registered(self, peer: PeerState) -> Seq<PeerState> {
        if self.has_peer(peer.conn_id) {
            self.peers.update(self.index_of(peer.conn_id), peer)
        } else {
            self.peers.push(peer)
        }
    }

    /// Where peer `id` stands among the peers, if it is registered.
    pub open spec fn index_of(self, id: ConnId) -> int {
        choose|i: int| 0 <= i < self.peers.len() && (#[trigger] self.peers[i]).conn_id == id
    }

    /// The tunnel once peer `id` is stopped. A peer that nothing is
    /// routed to is left alone. Else its routes and the peer itself go,
    /// its channel is to be closed, and so is its connection if it has
    /// one.
    pub open spec fn stop(self, id: ConnId) -> TunnelState {
        if !self.routed(id) || !self.has_peer(id) {
            self
        } else {
            let i = self.index_of(id);
            let close = seq![ActionView::CloseChannel { conn_id: id, channel: self.channels[i] }];
            TunnelState {
                routes: self.routes_without(id),
                peers: self.peers.remove(i),
                channels: self.channels.remove(i),
                connections: self.connections.remove(id),
                actions: self.actions + close + if self.connections.contains(id) {
                    seq![ActionView::CloseConnection { conn_id: id }]
                } else {
                    Seq::empty()
                },
                ..self
            }
        }
    }

    /// The tunnel once the session of peer `id` has acted on the time
    /// that has passed, with `result`: a message is to be sent, an error
    /// is reported, and an error that ends the connection has the peer
    /// queued to be stopped.
    pub open spec fn after_timers(
        self,
        id: ConnId,
        channel: ChannelId,
        result: Result<Option<Seq<u8>>, Error>,
    ) -> TunnelState {
        match result {
            Ok(Some(bytes)) => TunnelState {
                actions: self.actions.push(
                    ActionView::Transmit { conn_id: id, channel, bytes },
                ),
                ..self
            },
            Ok(None) => self,
            Err(e) => TunnelState {
                actions: self.actions.push(ActionView::ReportError(e)),
                to_stop: if e.fatal() {
                    self.to_stop.push(id)
                } else {
                    self.to_stop
                },
                ..self
            },
        }
    }

    /// The tunnel once the peer at `index` is refreshed as of `now`: its
    /// grants that have ended are dropped; if that leaves it emptied it
    /// is queued to be stopped; else its session acts on the time that
    /// has passed, with `result`.
    pub open spec fn refresh(self, index: int, now: Timestamp, result: Result<Option<Seq<u8>>, Error>) -> TunnelState {
        let peer = self.peers[index].expire(now);
        let expired = TunnelState { peers: self.peers.update(index, peer), ..self };
        if peer.emptied() {
            TunnelState { to_stop: self.to_stop.push(peer.conn_id), ..expired }
        } else {
            expired.after_timers(peer.conn_id, self.channels[index], result)
        }
    }

    /// Whether `result` can be what comes of wrapping `packet` for the
    /// peer that its destination is routed to: a packet that the peer
    /// cannot prepare gives that error; else the result is up to the
    /// peer's session.
    pub open spec fn wrapped(self, packet: Seq<u8>, result: Result<Option<Seq<u8>>, Error>) -> bool {
        match self.route_of(crate::ip_packet::destination_of(packet)->0) {
            Some(id) => self.peers[self.index_of(id)].outbound(packet) matches Err(e) ==> result == Err::<
                Option<Seq<u8>>,
                Error,
            >(e),
            None => true,
        }
    }

    /// The tunnel once `packet`, which came from the device, is routed,
    /// where `result` is what came of wrapping it: see
    /// [`TunnelState::after_encapsulate`]. A packet that is routed to no
    /// peer leaves the tunnel as it is.
    pub open spec fn routed_packet(self, packet: Seq<u8>, result: Result<Option<Seq<u8>>, Error>) -> TunnelState {
        match self.route_of(crate::ip_packet::destination_of(packet)->0) {
            Some(id) => self.after_encapsulate(id, self.channels[self.index_of(id)], result),
            None => self,
        }
    }

    /// The tunnel once each of `packets` is routed, in their order, where
    /// `results` holds for each what came of wrapping it.
    pub open spec fn routed_all(self, packets: Seq<Seq<u8>>, results: Seq<Result<Option<Seq<u8>>, Error>>) -> TunnelState
        decreases packets.len(),
    {
        if packets.len() == 0 || results.len() != packets.len() {
            self
        } else {
            self.routed_all(packets.drop_last(), results.drop_last()).routed_packet(packets.last(), results.last())
        }
    }

    /// Whether each of `results` can be what comes of wrapping the packet
    /// of `packets` that it stands for, as the packets are routed in
    /// their order.
    pub open spec fn all_wrapped(self, packets: Seq<Seq<u8>>, results: Seq<Result<Option<Seq<u8>>, Error>>) -> bool
        decreases packets.len(),
    {
        if packets.len() == 0 {
            results.len() == 0
        } else {
            &&& results.len() == packets.len()
            &&& self.all_wrapped(packets.drop_last(), results.drop_last())
            &&& self.routed_all(packets.drop_last(), results.drop_last()).wrapped(packets.last(), results.last())
        }
    }

    /// Whether `after` is the tunnel once packets were read from its
    /// device until reading stopped, where `routed` are those of the
    /// packets that were routed, `results` what came of wrapping each of
    /// them, and `answered` what was written back to the device: what
    /// was read is gone from the device, what was written back comes
    /// after what was written before, and each packet was routed in its
    /// turn as [`TunnelState::routed_packet`] says.
    pub open spec fn ingress_of(
        self,
        routed: Seq<Seq<u8>>,
        answered: Seq<(IpVersion, Seq<u8>)>,
        results: Seq<Result<Option<Seq<u8>>, Error>>,
        after: TunnelState,
    ) -> bool {
        &&& self.device is Some
        &&& self.all_wrapped(routed, results)
        &&& after == (TunnelState {
            device: Some(
                DeviceState {
                    mtu: self.device->0.mtu,
                    io: DeviceIoState {
                        unread: self.device->0.io.unread.skip(
                            ingress_stop(self.device->0.io.unread, self.device->0.mtu as int).0 as int,
                        ),
                        written: self.device->0.io.written + answered,
                    },
                },
            ),
            ..self.routed_all(routed, results)
        })
    }

    /// The tunnel once the session of peer `id` has been asked to wrap a
    /// packet, with `result`: a message is to be sent; an error that ends
    /// the connection has the peer queued to be stopped.
    pub open spec fn after_encapsulate(
        self,
        id: ConnId,
        channel: ChannelId,
        result: Result<Option<Seq<u8>>, Error>,
    ) -> TunnelState {
        match result {
            Ok(Some(bytes)) => TunnelState {
                actions: self.actions.push(
                    ActionView::Transmit { conn_id: id, channel, bytes },
                ),
                ..self
            },
            Ok(None) => self,
            Err(e) => TunnelState {
                to_stop: if e.fatal() {
                    self.to_stop.push(id)
                } else {
                    self.to_stop
                },
                ..self
            },
        }
    }

    /// The tunnel once the oldest of the peers queued to be stopped is
    /// taken from the queue and stopped, and whether that peer was one
    /// that nothing is routed to. Without a peer queued nothing happens.
    pub open spec fn teardown(self) -> (TunnelState, bool) {
        if self.to_stop.len() == 0 {
            (self, false)
        } else {
            let popped = TunnelState { to_stop: self.to_stop.drop_first(), ..self };
            if popped.routed(self.to_stop[0]) {
                (popped.stop(self.to_stop[0]), false)
            } else {
                (popped, true)
            }
        }
    }

    /// The tunnel once the peers at the places `order` are refreshed as
    /// of `now`, one after the other, where `results` holds for each
    /// what its session gave: see [`TunnelState::refresh`].
    pub open spec fn refresh_all(
        self,
        order: Seq<int>,
        results: Seq<Result<Option<Seq<u8>>, Error>>,
        now: Timestamp,
    ) -> TunnelState
        decreases order.len(),
    {
        if order.len() == 0 || results.len() != order.len() {
            self
        } else {
            self.refresh_all(order.drop_last(), results.drop_last(), now).refresh(
                order.last(),
                now,
                results.last(),
            )
        }
    }

    /// Whether `order` names the place of each peer that some network is
    /// routed to, once, and no other place.
    pub open spec fn refresh_order(self, order: Seq<int>) -> bool {
        &&& order.no_duplicates()
        &&& forall|i: int| #[trigger]
            order.contains(i) <==> 0 <= i < self.peers.len() && self.routed(self.peers[i].conn_id)
    }

    /// Whether `after` is the tunnel once its peers are refreshed as of
    /// `now`: each peer that some network is routed to is refreshed
    /// once, in some order, as [`TunnelState::refresh`] says, with what
    /// its session gave; no other peer is touched.
    ///
    /// So each peer that some network is routed to has lost the
    /// grants that have ended; those that are left emptied are queued to
    /// be stopped, each once; nobody else is queued but a peer whose
    /// session gave up; and all the work that is new is messages to send
    /// and errors to report.
    pub open spec fn refreshed_as(self, after: TunnelState, now: Timestamp) -> bool {
        &&& after.public_key == self.public_key
        &&& after.routes == self.routes
        &&& after.channels == self.channels
        &&& after.connections == self.connections
        &&& after.device == self.device
        &&& after.awaiting_device == self.awaiting_device
        &&& after.peers.len() == self.peers.len()
        &&& forall|i: int|
            0 <= i < self.peers.len() ==> #[trigger] after.peers[i] == if self.routed(self.peers[i].conn_id) {
                self.peers[i].expire(now)
            } else {
                self.peers[i]
            }
        &&& self.to_stop.is_prefix_of(after.to_stop)
        &&& self.actions.is_prefix_of(after.actions)
        &&& after.to_stop.skip(self.to_stop.len() as int).no_duplicates()
        &&& forall|id: ConnId| #[trigger]
            after.to_stop.skip(self.to_stop.len() as int).contains(id) ==> self.routed(id)
        &&& forall|i: int|
            0 <= i < self.peers.len() && self.routed(self.peers[i].conn_id) && (#[trigger] self.peers[i]).expire(
                now,
            ).emptied() ==> after.to_stop.skip(self.to_stop.len() as int).contains(self.peers[i].conn_id)
        &&& forall|k: int|
            self.actions.len() <= k < after.actions.len() ==> refresh_work(#[trigger] after.actions[k])
        &&& exists|order: Seq<int>, results: Seq<Result<Option<Seq<u8>>, Error>>|
            self.refresh_order(order) && results.len() == order.len() && (forall|k: int|
                0 <= k < results.len() ==> timer_result(#[trigger] results[k])) && after
                == #[trigger] self.refresh_all(order, results, now)
    }

    /// The tunnel once a packet was written to the device. Without a
    /// device the packet is lost.
    pub open spec fn write_device(self, packet: (IpVersion, Seq<u8>)) -> TunnelState {
        match self.device {
            Some(d) => TunnelState {
                device: Some(DeviceState { io: DeviceIoState { written: d.io.written.push(packet), ..d.io }, ..d }),
                ..self
            },
            None => self,
        }
    }

    /// The tunnel once peer `id` has made `result` of a datagram:
    /// messages for the peer are to be sent, in their order; a packet
    /// for the device is written to it; a name is to be resolved; an
    /// error is reported, and one that ends the connection has the peer
    /// queued to be stopped.
    pub open spec fn after_decapsulate(
        self,
        id: ConnId,
        channel: ChannelId,
        result: Result<Option<WriteToView>, Error>,
    ) -> TunnelState {
        match result {
            Ok(None) => self,
            Ok(Some(WriteToView::Network(packets))) => TunnelState {
                actions: self.actions + transmits(id, channel, packets),
                ..self
            },
            Ok(Some(WriteToView::Resource(packet))) => self.write_device(packet),
            Ok(Some(WriteToView::Resolve { host, addr, packet })) => TunnelState {
                actions: self.actions.push(ActionView::Resolve { conn_id: id, host, addr, packet }),
                ..self
            },
            Err(e) => TunnelState {
                actions: self.actions.push(ActionView::ReportError(e)),
                to_stop: if e.fatal() {
                    self.to_stop.push(id)
                } else {
                    self.to_stop
                },
                ..self
            },
        }
    }

    /// The routes but those to peer `id`.
    pub open spec fn routes_without(self, id: ConnId) -> Map<IpPrefix, ConnId> {
        Map::new(|p: IpPrefix| self.routes.contains_key(p) && self.routes[p] != id, |p: IpPrefix| self.routes[p])
    }
}

/// What a session gave, with bytes as a plain sequence.
pub open spec fn result_view(r: Result<Option<Vec<u8>>, Error>) -> Result<Option<Seq<u8>>, Error> {
    match r {
        Ok(Some(b)) => Ok(Some(b@)),
        Ok(None) => Ok(None),
        Err(e) => Err(e),
    }
}

/// Whether `list` names every route of a tunnel in state `state`, each
/// once and with the statistics of the peer it leads to, and nothing
/// else.
pub open spec fn lists_routes(list: Seq<(IpPrefix, PeerStats)>, state: TunnelState) -> bool {
    &&& forall|k: int|
        0 <= k < list.len() ==> state.routes.contains_key((#[trigger] list[k]).0) && list[k].1.describes(
            state.peers[state.index_of(state.routes[list[k].0])],
        )
    &&& forall|p: IpPrefix| #[trigger]
        state.routes.contains_key(p) ==> exists|k: int| 0 <= k < list.len() && (#[trigger] list[k]).0 == p
    &&& forall|j: int, k: int| 0 <= j < k < list.len() ==> (#[trigger] list[j]).0 != (#[trigger] list[k]).0
}

/// The work of sending each of `packets` to peer `id`, in their order.
pub open spec fn transmits(id: ConnId, channel: ChannelId, packets: Seq<Seq<u8>>) -> Seq<ActionView> {
    packets.map_values(
        |bytes: Seq<u8>| ActionView::Transmit { conn_id: id, channel, bytes },
    )
}

/// What a peer made of a datagram, with bytes as plain sequences.
pub open spec fn write_view(r: Result<Option<WriteTo>, Error>) -> Result<Option<WriteToView>, Error> {
    match r {
        Ok(Some(w)) => Ok(Some(w@)),
        Ok(None) => Ok(None),
        Err(e) => Err(e),
    }
}

/// Every route of `a` is a route of `b`.
pub open spec fn routes_within(a: Map<IpPrefix, ConnId>, b: Map<IpPrefix, ConnId>) -> bool {
    forall|p: IpPrefix| #[trigger] a.contains_key(p) ==> b.contains_key(p) && a[p] == b[p]
}

/// What a session can give when it acts on the time that has passed: a
/// message no longer than a handshake initiation, nothing, or a refusal.
pub open spec fn timer_result(result: Result<Option<Seq<u8>>, Error>) -> bool {
    match result {
        Ok(Some(bytes)) => bytes.len() <= crate::noise::HANDSHAKE_INIT_SIZE,
        Ok(None) => true,
        Err(e) => e is WireguardError,
    }
}

/// Work that a refresh of the peers can leave: a message to send, or an
/// error to report.
pub open spec fn refresh_work(a: ActionView) -> bool {
    match a {
        ActionView::Transmit { conn_id, channel, bytes } => bytes.len() <= crate::noise::HANDSHAKE_INIT_SIZE,
        ActionView::ReportError(e) => e is WireguardError,
        _ => false,
    }
}

/// The actions of `s` with bytes as plain sequences.
pub open spec fn actions_view(s: Seq<Action>) -> Seq<ActionView> {
    s.map_values(|a: Action| a@)
}

/// The peers of `s` as plain values.
pub open spec fn peers_view(s: Seq<ConnectedPeer>) -> Seq<PeerState> {
    s.map_values(|p: ConnectedPeer| p.inner@)
}

/// The channels of the peers of `s`.
pub open spec fn channels_view(s: Seq<ConnectedPeer>) -> Seq<ChannelId> {
    s.map_values(|p: ConnectedPeer| p.channel)
}

/// The peer to which `ip` is routed by `routes`: the owner of the longest
/// network around `ip`, if any network is around it.
pub open spec fn owner_of(routes: Map<IpPrefix, ConnId>, ip: IpAddress) -> Option<ConnId> {
    if exists|p: IpPrefix, id: ConnId| #[trigger] is_longest_match(routes, ip, Some((p, id))) {
        let (p, id) = choose|p: IpPrefix, id: ConnId| #[trigger] is_longest_match(routes, ip, Some((p, id)));
        Some(id)
    } else {
        None
    }
}

/// What a longest-prefix lookup gives is the owner of the address.
pub proof fn lemma_owner_of(routes: Map<IpPrefix, ConnId>, ip: IpAddress, r: Option<(IpPrefix, ConnId)>)
    requires
        is_longest_match(routes, ip, r),
    ensures
        owner_of(routes, ip) == match r {
            Some((_, id)) => Some(id),
            None => None,
        },
{
    match r {
        Some((p, id)) => {
            let (q, other) = choose|q: IpPrefix, other: ConnId| #[trigger]
                is_longest_match(routes, ip, Some((q, other)));
            lemma_longest_match_unique(routes, ip, Some((q, other)), p);
        },
        None => {
            assert forall|q: IpPrefix, other: ConnId| !(#[trigger] is_longest_match(
                routes,
                ip,
                Some((q, other)),
            )) by {
                if routes.contains_key(q) {
                    assert(!q.covers(ip));
                }
            }
        },
    }
}

/// The peer to which `ip` is routed: see [`owner_of`].
pub fn peer_by_ip(peers_by_ip: &IpNetworkTable<u128>, ip: IpAddress) -> (r: Option<ConnId>)
    ensures
        r == owner_of(table_entries(*peers_by_ip), ip),
{
    let found = table_longest_match(peers_by_ip, ip);
    proof {
        lemma_owner_of(table_entries(*peers_by_ip), ip, found);
    }
    match found {
        Some((_, id)) => Some(id),
        None => None,
    }
}

/// Among networks that cover one address, the longest is unique: what a
/// lookup gives is the entry of any covering network that no other
/// covering network is longer than.
pub proof fn lemma_longest_match_unique(
    routes: Map<IpPrefix, ConnId>,
    ip: IpAddress,
    r: Option<(IpPrefix, ConnId)>,
    longest: IpPrefix,
)
    requires
        is_longest_match(routes, ip, r),
        routes.contains_key(longest),
        longest.covers(ip),
        forall|q: IpPrefix| #[trigger] routes.contains_key(q) && q.covers(ip) ==> q.len <= longest.len,
    ensures
        r == Some((longest, routes[longest])),
{
    let (p, v) = r->0;
    assert(routes.contains_key(p) && p.covers(ip));
    assert(p.len == longest.len);
}

/// Longest-prefix routing: where a longer network lies inside a peer's
/// network and belongs to another peer, the addresses in the longer
/// network go to that other peer, as long as no network around them is
/// longer yet.
pub proof fn lemma_longer_prefix_wins(routes: Map<IpPrefix, ConnId>, ip: IpAddress, outer: IpPrefix, inner: IpPrefix)
    requires
        routes.contains_key(outer),
        routes.contains_key(inner),
        outer.covers(ip),
        inner.covers(ip),
        outer.len < inner.len,
        forall|q: IpPrefix| #[trigger] routes.contains_key(q) && q.covers(ip) ==> q.len <= inner.len,
    ensures
        owner_of(routes, ip) == Some(routes[inner]),
{
    let r = Some((inner, routes[inner]));
    assert(is_longest_match(routes, ip, r));
    lemma_owner_of(routes, ip, r);
}

/// The identities in `entries`, each once, in the order of their first
/// entry.
pub fn unique_ids(entries: &Vec<(IpPrefix, ConnId)>) -> (ids: Vec<ConnId>)
    ensures
        ids@.no_duplicates(),
        forall|id: ConnId| #[trigger]
            ids@.contains(id) <==> exists|i: int| 0 <= i < entries@.len() && (#[trigger] entries@[i]).1 == id,
{
    let mut ids: Vec<ConnId> = Vec::new();
    let mut i: usize = 0;
    while i < entries.len()
        invariant
            i <= entries.len(),
            ids@.no_duplicates(),
            forall|id: ConnId| #[trigger]
                ids@.contains(id) <==> exists|k: int| 0 <= k < i && (#[trigger] entries@[k]).1 == id,
        decreases entries.len() - i,
    {
        let id = entries[i].1;
        let ghost before = ids@;
        if !crate::translation::contains_id(&ids, id) {
            ids.push(id);
        }
        proof {
            assert forall|x: ConnId| #[trigger]
                ids@.contains(x) <==> exists|k: int| 0 <= k < i + 1 && (#[trigger] entries@[k]).1 == x by {
                if ids@.contains(x) {
                    let w = choose|w: int| 0 <= w < ids@.len() && ids@[w] == x;
                    if w < before.len() {
                        assert(before[w] == x);
                        assert(before.contains(x));
                        let k = choose|k: int| 0 <= k < i && (#[trigger] entries@[k]).1 == x;
                        assert(0 <= k < i + 1 && entries@[k].1 == x);
                    } else {
                        assert(entries@[i as int].1 == x);
                    }
                }
                if exists|k: int| 0 <= k < i + 1 && (#[trigger] entries@[k]).1 == x {
                    let k = choose|k: int| 0 <= k < i + 1 && (#[trigger] entries@[k]).1 == x;
                    if k < i {
                        assert(before.contains(x));
                        let w = choose|w: int| 0 <= w < before.len() && before[w] == x;
                        assert(ids@[w] == x);
                    } else {
                        if before.contains(x) {
                            let w = choose|w: int| 0 <= w < before.len() && before[w] == x;
                            assert(ids@[w] == x);
                        } else {
                            assert(ids@[ids@.len() - 1] == x);
                        }
                    }
                }
            }
        }
        i += 1;
    }
    ids
}

/// Takes `id` out of `ids` and says whether it was there.
pub fn remove_id(ids: &mut Vec<ConnId>, id: ConnId) -> (had: bool)
    requires
        old(ids)@.no_duplicates(),
    ensures
        had == old(ids)@.to_set().contains(id),
        final(ids)@.to_set() == old(ids)@.to_set().remove(id),
        final(ids)@.no_duplicates(),
{
    let ghost s0 = ids@;
    let mut i: usize = 0;
    while i < ids.len()
        invariant
            i <= ids.len(),
            ids@ == s0,
            s0 == old(ids)@,
            s0.no_duplicates(),
            forall|k: int| 0 <= k < i ==> s0[k] != id,
        decreases ids.len() - i,
    {
        if ids[i] == id {
            ids.remove(i);
            proof {
                let s1 = ids@;
                assert forall|x: int, y: int| 0 <= x < s1.len() && 0 <= y < s1.len() && x != y implies s1[x]
                    != s1[y] by {
                    let ox = if x < i {
                        x
                    } else {
                        x + 1
                    };
                    let oy = if y < i {
                        y
                    } else {
                        y + 1
                    };
                    assert(s0[ox] != s0[oy]);
                }
                assert forall|c: ConnId| s1.to_set().contains(c) <==> s0.to_set().remove(id).contains(c) by {
                    if s1.contains(c) {
                        let k = choose|k: int| 0 <= k < s1.len() && s1[k] == c;
                        let ok = if k < i {
                            k
                        } else {
                            k + 1
                        };
                        assert(s0[ok] == c);
                        assert(s0[ok] != s0[i as int]);
                    }
                    if s0.contains(c) && c != id {
                        let k = choose|k: int| 0 <= k < s0.len() && s0[k] == c;
                        if k < i {
                            assert(s1[k] == c);
                        } else {
                            assert(s1[k - 1] == c);
                        }
                    }
                }
                assert(s1.to_set() =~= s0.to_set().remove(id));
                assert(s0[i as int] == id);
            }
            return true;
        }
        i += 1;
    }
    assert(s0.to_set() =~= s0.to_set().remove(id));
    false
}

/// How one round of taking up what has come up ends.
pub enum Round {
    /// Something was taken up; there may be more.
    Again,
    /// The role has an event for the application.
    Ready(Event),
    /// Nothing is left to take up.
    Pending,
}

/// Whether `after`, `left` and `outcome` are what one round makes of a
/// tunnel in state `before` and of what has come up, `signals`.
///
/// A round starts by stopping the oldest of the peers queued to be
/// stopped; if nothing is routed to that peer, the round is over. Then
/// the first of these that applies is done, and the round is over: a
/// tick of the rate-limit timer starts a new counting period; a tick of
/// the refresh timer has the peers refreshed; a tick of the timer for
/// the packet size finds no device. Else a tick of that timer has the
/// device asked for its packet size, and the role is asked for an
/// event. If it has none, the oldest request to stop a peer is queued.
/// Where there is none either, nothing is left to take up.
pub open spec fn is_round(
    before: TunnelState,
    signals: SignalsState,
    after: TunnelState,
    left: SignalsState,
    outcome: Round,
) -> bool {
    let (torn, restart) = before.teardown();
    if restart {
        outcome is Again && after == torn && left == signals
    } else if signals.rate_limit_reset {
        outcome is Again && after == torn && left == (SignalsState { rate_limit_reset: false, ..signals })
    } else if signals.peer_refresh {
        outcome is Again && left == (SignalsState { peer_refresh: false, ..signals }) && exists|now: Timestamp| #[trigger]
            torn.refreshed_as(after, now)
    } else if signals.mtu_refresh && torn.device is None {
        outcome is Again && after == torn && left == (SignalsState { mtu_refresh: false, ..signals })
    } else {
        let asked = if signals.mtu_refresh {
            TunnelState { actions: torn.actions.push(ActionView::RefreshMtu), ..torn }
        } else {
            torn
        };
        let cleared = SignalsState { mtu_refresh: false, ..signals };
        match outcome {
            Round::Ready(_) => after == asked && left == cleared,
            Round::Again => signals.stop_requests.len() > 0 && after == (TunnelState {
                to_stop: asked.to_stop.push(signals.stop_requests[0]),
                ..asked
            }) && left == (SignalsState { stop_requests: signals.stop_requests.drop_first(), ..cleared }),
            Round::Pending => signals.stop_requests.len() == 0 && after == asked && left == cleared,
        }
    }
}

/// Whether a round that starts in state `before`, with `signals` come up,
/// gets as far as asking the role for an event.
pub open spec fn asks_role(before: TunnelState, signals: SignalsState) -> bool {
    let (torn, restart) = before.teardown();
    !restart && !signals.rate_limit_reset && !signals.peer_refresh && !(signals.mtu_refresh && torn.device is None)
}

/// What the role answered in a round that asked it and ended with
/// `outcome`.
pub open spec fn role_answer(outcome: Round) -> Poll<Event> {
    match outcome {
        Round::Ready(event) => Poll::Ready(event),
        _ => Poll::Pending,
    }
}

/// Whether round `i` of a run takes the tunnel from `states[i]` to
/// `states[i + 1]`, and what has come up from `seen[i]` to `seen[i + 1]`,
/// and is not the last round.
pub open spec fn round_again(states: Seq<TunnelState>, seen: Seq<SignalsState>, i: int) -> bool {
    is_round(states[i], seen[i], states[i + 1], seen[i + 1], Round::Again)
}

/// Whether `states` and `seen` are what a run of rounds goes through
/// that starts from `before` and `signals`: each round but the one still
/// to come starts where the one before it ended, and is not the last.
pub open spec fn is_run(
    states: Seq<TunnelState>,
    seen: Seq<SignalsState>,
    before: TunnelState,
    signals: SignalsState,
) -> bool {
    &&& states.len() == seen.len()
    &&& states.len() > 0
    &&& states[0] == before
    &&& seen[0] == signals
    &&& forall|i: int| 0 <= i < states.len() - 1 ==> #[trigger] round_again(states, seen, i)
}

/// How the round ends that ends a poll with `r`.
pub open spec fn last_round(r: Poll<Event>) -> Round {
    match r {
        Poll::Ready(event) => Round::Ready(event),
        Poll::Pending => Round::Pending,
    }
}

/// Whether `after`, `left` and `r` are what a poll makes of a tunnel in
/// state `before` and of what has come up, `signals`: round follows
/// round, each as [`is_round`] says, until one ends with an event of the
/// role, which is the result, or with nothing left to take up.
pub open spec fn is_poll(
    before: TunnelState,
    signals: SignalsState,
    after: TunnelState,
    left: SignalsState,
    r: Poll<Event>,
) -> bool {
    exists|states: Seq<TunnelState>, seen: Seq<SignalsState>| #[trigger]
        is_run(states, seen, before, signals) && is_round(states.last(), seen.last(), after, left, last_round(r))
}

/// The poll of the tunnel as the poll of the rounds that ended it: an
/// event is an event, anything else is no event.
pub open spec fn poll_of(r: Poll<Result<Event, Error>>) -> Poll<Event> {
    match r {
        Poll::Ready(Ok(event)) => Poll::Ready(event),
        _ => Poll::Pending,
    }
}

/// Whether `after`, `left` and `r` are what a poll for the next event
/// makes of a tunnel that was in state `before`, and in state `read`
/// once packets were read from its device, where it had one.
///
/// A device that failed is detached, and the failure is the result;
/// nothing is taken up. Else a device that has come to its end is
/// detached, and reading is suspended until a device is attached, as it
/// is where there was no device. Then what has come up is taken up as
/// [`is_poll`] says, and its event is the result.
pub open spec fn after_reading(
    before: TunnelState,
    read: TunnelState,
    signals: SignalsState,
    after: TunnelState,
    left: SignalsState,
    r: Poll<Result<Event, Error>>,
) -> bool {
    match before.device {
        None => !(r matches Poll::Ready(Err(_))) && is_poll(
            TunnelState { awaiting_device: true, ..before },
            signals,
            after,
            left,
            poll_of(r),
        ),
        Some(d) => match ingress_stop(d.io.unread, d.mtu as int).1 {
            IngressStop::Pending => !(r matches Poll::Ready(Err(_))) && is_poll(read, signals, after, left, poll_of(r)),
            IngressStop::Ended => !(r matches Poll::Ready(Err(_))) && is_poll(
                TunnelState { device: None, awaiting_device: true, ..read },
                signals,
                after,
                left,
                poll_of(r),
            ),
            IngressStop::Failed(e) => (r matches Poll::Ready(Err(f)) && f == Error::Io(e)) && after == (TunnelState {
                device: None,
                ..read
            }) && left == signals,
        },
    }
}

/// Stopping a peer takes routes, peers and connections away and adds
/// none; the work it leaves comes after the work that was there.
pub proof fn lemma_stop_shrinks(state: TunnelState, id: ConnId)
    ensures
        routes_within(state.stop(id).routes, state.routes),
        forall|x: ConnId| state.stop(id).has_peer(x) ==> state.has_peer(x),
        state.stop(id).connections.subset_of(state.connections),
        state.actions.is_prefix_of(state.stop(id).actions),
        state.stop(id).to_stop == state.to_stop,
        state.stop(id).public_key == state.public_key,
        state.stop(id).device == state.device,
        state.stop(id).awaiting_device == state.awaiting_device,
{
    let after = state.stop(id);
    if state.routed(id) && state.has_peer(id) {
        let i = state.index_of(id);
        assert forall|x: ConnId| after.has_peer(x) implies state.has_peer(x) by {
            let w = choose|w: int| 0 <= w < after.peers.len() && (#[trigger] after.peers[w]).conn_id == x;
            if w < i {
                assert(state.peers[w].conn_id == x);
            } else {
                assert(state.peers[w + 1].conn_id == x);
            }
        }
        assert forall|p: IpPrefix| #[trigger] after.routes.contains_key(p) implies state.routes.contains_key(p)
            && after.routes[p] == state.routes[p] by {
            assert(state.routes_without(id).contains_key(p));
        }
    }
}

/// A round takes routes, peers and connections away and adds none,
/// leaves the device alone, and takes up something or queues less to be
/// stopped, unless it is the last.
pub proof fn lemma_round(
    before: TunnelState,
    signals: SignalsState,
    after: TunnelState,
    left: SignalsState,
    outcome: Round,
)
    requires
        is_round(before, signals, after, left, outcome),
    ensures
        routes_within(after.routes, before.routes),
        forall|x: ConnId| after.has_peer(x) ==> before.has_peer(x),
        after.connections.subset_of(before.connections),
        before.actions.is_prefix_of(after.actions),
        after.public_key == before.public_key,
        after.device == before.device,
        after.awaiting_device == before.awaiting_device,
        left.pending() <= signals.pending(),
        outcome is Again ==> left.pending() < signals.pending() || (left.pending() == signals.pending()
            && after.to_stop.len() < before.to_stop.len()),
        outcome is Pending ==> left.pending() == 0,
        signals.pending() == 0 && before.to_stop.len() == 0 ==> after == before && !(outcome is Again),
{
    let (torn, restart) = before.teardown();
    if before.to_stop.len() > 0 {
        let popped = TunnelState { to_stop: before.to_stop.drop_first(), ..before };
        lemma_stop_shrinks(popped, before.to_stop[0]);
        assert forall|x: ConnId| popped.has_peer(x) implies before.has_peer(x) by {
            let w = choose|w: int| 0 <= w < popped.peers.len() && (#[trigger] popped.peers[w]).conn_id == x;
            assert(before.peers[w].conn_id == x);
        }
    }
    if !restart && !signals.rate_limit_reset && signals.peer_refresh {
        let now = choose|now: Timestamp| #[trigger] torn.refreshed_as(after, now);
        assert forall|x: ConnId| after.has_peer(x) implies torn.has_peer(x) by {
            let w = choose|w: int| 0 <= w < after.peers.len() && (#[trigger] after.peers[w]).conn_id == x;
            assert(torn.peers[w].conn_id == x);
        }
    }
    assert forall|x: ConnId| after.has_peer(x) implies before.has_peer(x) by {
        if after.has_peer(x) {
            assert(torn.has_peer(x)) by {
                if !(!restart && !signals.rate_limit_reset && signals.peer_refresh) {
                    let w = choose|w: int| 0 <= w < after.peers.len() && (#[trigger] after.peers[w]).conn_id == x;
                    assert(torn.peers[w].conn_id == x);
                }
            }
        }
    }
}

pub struct Tunnel<R: RoleState> {
    rate_limiter: Arc<RateLimiter>,
    private_key: [u8; 32],
    public_key: [u8; 32],
    peers_by_ip: IpNetworkTable<u128>,
    peers: Vec<ConnectedPeer>,
    peer_connections: Vec<ConnId>,
    /// State that differs per role.
    pub role_state: R,
    peers_to_stop: VecDeque<ConnId>,
    device: Option<Device>,
    read_buf: Vec<u8>,
    write_buf: Vec<u8>,
    awaiting_device: bool,
    actions: VecDeque<Action>,
}

/// What a tunnel looks like from outside, for inspection.
pub struct TunnelStats {
    pub public_key: [u8; 32],
    pub peers_by_ip: Vec<(IpPrefix, PeerStats)>,
    pub peer_connections: Vec<ConnId>,
}

impl<R: RoleState> View for Tunnel<R> {
    type V = TunnelState;

    closed spec fn view(&self) -> TunnelState {
        TunnelState {
            public_key: self.public_key@,
            routes: table_entries(self.peers_by_ip),
            peers: peers_view(self.peers@),
            channels: channels_view(self.peers@),
            connections: self.peer_connections@.to_set(),
            to_stop: self.peers_to_stop@,
            actions: actions_view(self.actions@),
            device: match self.device {
                Some(d) => Some(DeviceState { mtu: d.config.mtu(), io: d.io@ }),
                None => None,
            },
            awaiting_device: self.awaiting_device,
        }
    }
}

impl<R: RoleState> Tunnel<R> {
    /// What the parts of a tunnel have to satisfy: the scratch buffers
    /// have their full size, the peers are well-formed and differ in
    /// identity, every route is a valid network that leads to a
    /// registered peer, and a packet of the device fits a datagram once
    /// wrapped.
    pub closed spec fn wf(&self) -> bool {
        &&& self.public_key@ == x25519_public_key(self.private_key@)
        &&& self.read_buf@.len() == MAX_UDP_SIZE
        &&& self.write_buf@.len() == MAX_UDP_SIZE
        &&& forall|i: int| 0 <= i < self.peers@.len() ==> (#[trigger] self.peers@[i]).inner.wf()
        &&& forall|i: int, j: int|
            0 <= i < j < self.peers@.len() ==> (#[trigger] self.peers@[i]).inner@.conn_id != (
            #[trigger] self.peers@[j]).inner@.conn_id
        &&& forall|p: IpPrefix| #[trigger]
            table_entries(self.peers_by_ip).contains_key(p) ==> p.wf() && self@.has_peer(
                table_entries(self.peers_by_ip)[p],
            )
        &&& self.peer_connections@.no_duplicates()
        &&& self.device matches Some(d) ==> d.config.mtu() + DATA_OVERHEAD <= MAX_UDP_SIZE
    }

    /// A well-formed tunnel routes to registered peers only, and its
    /// peers differ in identity.
    pub proof fn lemma_wf(&self)
        requires
            self.wf(),
        ensures
            forall|p: IpPrefix| #[trigger]
                self@.routes.contains_key(p) ==> p.wf() && self@.has_peer(self@.routes[p]),
            forall|i: int, j: int|
                0 <= i < j < self@.peers.len() ==> (#[trigger] self@.peers[i]).conn_id != (
                #[trigger] self@.peers[j]).conn_id,
            self@.channels.len() == self@.peers.len(),
    {
        assert forall|i: int, j: int| 0 <= i < j < self@.peers.len() implies (#[trigger] self@.peers[i]).conn_id
            != (#[trigger] self@.peers[j]).conn_id by {
            assert(self.peers@[i].inner@.conn_id != self.peers@[j].inner@.conn_id);
        }
    }

    /// The state of the role.
    pub closed spec fn role(&self) -> R {
        self.role_state
    }

    /// The lengths of the two scratch buffers: the one that packets of
    /// the device are read into, and the one that sessions write to.
    pub closed spec fn scratch(&self) -> (nat, nat) {
        (self.read_buf@.len(), self.write_buf@.len())
    }

    /// A tunnel for the holder of `private_key`: no routes, no peers, no
    /// device, nothing queued, two scratch buffers of the largest size a
    /// datagram can have, and the state of the role as it is by default.
    pub fn new(private_key: [u8; 32]) -> (t: Self)
        ensures
            t.wf(),
            t.scratch() == (MAX_UDP_SIZE as nat, MAX_UDP_SIZE as nat),
            R::default.ensures((), t.role()),
            t@.public_key == x25519_public_key(private_key@),
            t@.routes == Map::<IpPrefix, ConnId>::empty(),
            t@.peers.len() == 0,
            t@.connections == Set::<ConnId>::empty(),
            t@.to_stop.len() == 0,
            t@.actions.len() == 0,
            t@.device is None,
            !t@.awaiting_device,
    {
        let public_key = public_key_of(&private_key);
        let rate_limiter = rate_limiter_new(&public_key, HANDSHAKE_RATE_LIMIT);
        let t = Tunnel {
            rate_limiter,
            private_key,
            public_key,
            peers_by_ip: table_new(),
            peers: Vec::new(),
            peer_connections: Vec::new(),
            role_state: R::default(),
            peers_to_stop: VecDeque::new(),
            device: None,
            read_buf: vec![0u8; MAX_UDP_SIZE],
            write_buf: vec![0u8; MAX_UDP_SIZE],
            awaiting_device: false,
            actions: VecDeque::new(),
        };
        t
    }

    /// The tunnel's public key.
    pub fn public_key(&self) -> (k: [u8; 32])
        ensures
            k@ == self@.public_key,
    {
        self.public_key
    }

    /// The limiter that the sessions of this tunnel's peers share: the
    /// one that was made with the tunnel.
    pub closed spec fn limiter(&self) -> Arc<RateLimiter> {
        self.rate_limiter
    }

    /// A handle on the limiter that the sessions of this tunnel's peers
    /// share.
    pub fn rate_limiter(&self) -> (r: Arc<RateLimiter>)
        ensures
            r == self.limiter(),
    {
        rate_limiter_share(&self.rate_limiter)
    }

    /// The tunnel's private key.
    pub fn private_key(&self) -> (k: &[u8; 32])
        requires
            self.wf(),
        ensures
            x25519_public_key(k@) == self@.public_key,
    {
        &self.private_key
    }

    /// Where peer `id` stands among the peers.
    pub fn peer_index(&self, id: ConnId) -> (r: Option<usize>)
        ensures
            match r {
                Some(i) => i < self@.peers.len() && self@.peers[i as int].conn_id == id,
                None => !self@.has_peer(id),
            },
    {
        let mut i: usize = 0;
        while i < self.peers.len()
            invariant
                i <= self.peers.len(),
                forall|k: int| 0 <= k < i ==> (#[trigger] self.peers@[k]).inner@.conn_id != id,
            decreases self.peers.len() - i,
        {
            if self.peers[i].inner.conn_id() == id {
                return Some(i);
            }
            i += 1;
        }
        assert forall|k: int| 0 <= k < self@.peers.len() implies (#[trigger] self@.peers[k]).conn_id != id by {
            assert(self.peers@[k].inner@.conn_id != id);
        }
        None
    }

    /// The peer to which `ip` is routed: see [`owner_of`].
    pub fn peer_by_ip(&self, ip: IpAddress) -> (r: Option<&ConnectedPeer>)
        requires
            self.wf(),
        ensures
            match (r, self@.route_of(ip)) {
                (Some(peer), Some(id)) => peer.inner@.conn_id == id && peer.inner@ == self@.peers[self@.index_of(
                    id,
                )] && peer.channel == self@.channels[self@.index_of(id)],
                (None, None) => true,
                _ => false,
            },
    {
        let found = table_longest_match(&self.peers_by_ip, ip);
        proof {
            lemma_owner_of(self@.routes, ip, found);
        }
        let Some((p, id)) = found else {
            return None;
        };
        let Some(i) = self.peer_index(id) else {
            proof {
                assert(self@.has_peer(table_entries(self.peers_by_ip)[p]));
            }
            return None;
        };
        proof {
            self.lemma_wf();
            let w = self@.index_of(id);
            if w < i {
                assert(self@.peers[w].conn_id != self@.peers[i as int].conn_id);
            } else if i < w {
                assert(self@.peers[i as int].conn_id != self@.peers[w].conn_id);
            }
            assert(self@.peers[i as int] == self.peers@[i as int].inner@);
            assert(self@.channels[i as int] == self.peers@[i as int].channel);
        }
        Some(&self.peers[i])
    }

    /// Attaches a device. Reading from it is no longer suspended.
    pub fn set_device(&mut self, device: Device)
        requires
            old(self).wf(),
            device.config.mtu() + DATA_OVERHEAD <= MAX_UDP_SIZE,
        ensures
            final(self).role() == old(self).role(),
            final(self).limiter() == old(self).limiter(),
            final(self).wf(),
            final(self)@ == (TunnelState {
                device: Some(DeviceState { mtu: device.config.mtu(), io: device.io@ }),
                awaiting_device: false,
                ..old(self)@
            }),
    {
        self.device = Some(device);
        self.awaiting_device = false;
    }

    /// Takes note of the packet size that the device reported. Without a
    /// device there is nothing to note.
    pub fn set_mtu(&mut self, mtu: usize)
        requires
            old(self).wf(),
            mtu + DATA_OVERHEAD <= MAX_UDP_SIZE,
        ensures
            final(self).role() == old(self).role(),
            final(self).limiter() == old(self).limiter(),
            final(self).wf(),
            final(self)@ == (TunnelState {
                device: match old(self)@.device {
                    Some(d) => Some(DeviceState { mtu, ..d }),
                    None => None,
                },
                ..old(self)@
            }),
    {
        match &mut self.device {
            Some(d) => {
                d.config.set_mtu(mtu);
            },
            None => {},
        }
    }

    /// Takes in what the device handed over at one read, and says
    /// whether there is a device to take it.
    pub fn feed_device(&mut self, reading: Reading) -> (fed: bool)
        requires
            old(self).wf(),
        ensures
            final(self).role() == old(self).role(),
            final(self).limiter() == old(self).limiter(),
            final(self).wf(),
            fed == old(self)@.has_device(),
            final(self)@ == (TunnelState {
                device: match old(self)@.device {
                    Some(d) => Some(
                        DeviceState {
                            io: DeviceIoState {
                                unread: d.io.unread.push(
                                    match reading {
                                        Ok(b) => Ok(b@),
                                        Err(e) => Err(e),
                                    },
                                ),
                                ..d.io
                            },
                            ..d
                        },
                    ),
                    None => None,
                },
                ..old(self)@
            }),
    {
        match &mut self.device {
            Some(d) => {
                d.io.feed(reading);
                true
            },
            None => false,
        }
    }

    /// Gives up the oldest packet that was written to the device and
    /// not taken yet.
    pub fn take_written(&mut self) -> (p: Option<Packet>)
        requires
            old(self).wf(),
        ensures
            final(self).role() == old(self).role(),
            final(self).limiter() == old(self).limiter(),
            final(self).wf(),
            match (p, old(self)@.device) {
                (Some(p), Some(d)) => d.io.written.len() > 0 && p@ == d.io.written[0] && final(self)@ == (
                TunnelState {
                    device: Some(
                        DeviceState { io: DeviceIoState { written: d.io.written.drop_first(), ..d.io }, ..d },
                    ),
                    ..old(self)@
                }),
                (None, Some(d)) => d.io.written.len() == 0 && final(self)@ == old(self)@,
                (None, None) => final(self)@ == old(self)@,
                _ => false,
            },
    {
        match &mut self.device {
            Some(d) => d.io.take_written(),
            None => None,
        }
    }

    /// Gives up the oldest work that waits to be taken.
    pub fn next_action(&mut self) -> (a: Option<Action>)
        requires
            old(self).wf(),
        ensures
            final(self).role() == old(self).role(),
            final(self).limiter() == old(self).limiter(),
            final(self).wf(),
            match a {
                Some(a) => old(self)@.actions.len() > 0 && a@ == old(self)@.actions[0] && final(self)@ == (
                TunnelState { actions: old(self)@.actions.drop_first(), ..old(self)@ }),
                None => old(self)@.actions.len() == 0 && final(self)@ == old(self)@,
            },
    {
        let a = self.actions.pop_front();
        proof {
            if a is Some {
                assert(actions_view(self.actions@) =~= actions_view(old(self).actions@).drop_first());
            }
        }
        a
    }

    /// Takes note that peer `id` has an open connection.
    pub fn add_connection(&mut self, id: ConnId)
        requires
            old(self).wf(),
        ensures
            final(self).role() == old(self).role(),
            final(self).limiter() == old(self).limiter(),
            final(self).wf(),
            final(self)@ == (TunnelState { connections: old(self)@.connections.insert(id), ..old(self)@ }),
    {
        if !crate::translation::contains_id(&self.peer_connections, id) {
            self.peer_connections.push(id);
            proof {
                let s0 = old(self).peer_connections@;
                let s1 = self.peer_connections@;
                assert forall|i: int, j: int| 0 <= i < s1.len() && 0 <= j < s1.len() && i != j implies s1[i]
                    != s1[j] by {
                    if i < s0.len() && j < s0.len() {
                        assert(s0[i] != s0[j]);
                    } else if i < s0.len() {
                        assert(s0.contains(s0[i]));
                    } else {
                        assert(s0.contains(s0[j]));
                    }
                }
                assert(s1.to_set() =~= s0.to_set().insert(id)) by {
                    assert forall|c: ConnId| s1.to_set().contains(c) <==> s0.to_set().insert(id).contains(c) by {
                        if s1.contains(c) {
                            let k = choose|k: int| 0 <= k < s1.len() && s1[k] == c;
                            if k < s0.len() {
                                assert(s0[k] == c);
                            }
                        }
                        if s0.contains(c) {
                            let k = choose|k: int| 0 <= k < s0.len() && s0[k] == c;
                            assert(s1[k] == c);
                        }
                        if c == id {
                            assert(s1[s1.len() - 1] == c);
                        }
                    }
                }
            }
        } else {
            assert(self.peer_connections@.to_set() =~= old(self).peer_connections@.to_set().insert(id));
        }
    }

    /// Queues peer `id` to be stopped.
    pub fn queue_stop(&mut self, id: ConnId)
        requires
            old(self).wf(),
        ensures
            final(self).role() == old(self).role(),
            final(self).limiter() == old(self).limiter(),
            final(self).wf(),
            final(self)@ == (TunnelState { to_stop: old(self)@.to_stop.push(id), ..old(self)@ }),
    {
        self.peers_to_stop.push_back(id);
    }

    /// Registers a peer and routes each of `prefixes` to it. A peer
    /// already registered under the same identity gives way to the new
    /// one; a prefix routed elsewhere is routed to the new peer from now
    /// on.
    pub fn add_peer(&mut self, peer: ConnectedPeer, prefixes: &Vec<IpPrefix>)
        requires
            old(self).wf(),
            peer.inner.wf(),
            forall|i: int| 0 <= i < prefixes@.len() ==> (#[trigger] prefixes@[i]).wf(),
        ensures
            final(self).role() == old(self).role(),
            final(self).limiter() == old(self).limiter(),
            final(self).wf(),
            final(self)@.has_peer(peer.inner@.conn_id),
            final(self)@.peers == old(self)@.registered(peer.inner@),
            final(self)@.channels == if old(self)@.has_peer(peer.inner@.conn_id) {
                old(self)@.channels.update(old(self)@.index_of(peer.inner@.conn_id), peer.channel)
            } else {
                old(self)@.channels.push(peer.channel)
            },
            forall|p: IpPrefix| #[trigger]
                final(self)@.routes.contains_key(p) <==> old(self)@.routes.contains_key(p)
                    || prefixes@.contains(p),
            forall|p: IpPrefix| #[trigger]
                final(self)@.routes.contains_key(p) ==> final(self)@.routes[p] == if prefixes@.contains(p) {
                    peer.inner@.conn_id
                } else {
                    old(self)@.routes[p]
                },
            final(self)@.connections == old(self)@.connections,
            final(self)@.to_stop == old(self)@.to_stop,
            final(self)@.actions == old(self)@.actions,
            final(self)@.device == old(self)@.device,
            final(self)@.awaiting_device == old(self)@.awaiting_device,
    {
        let id = peer.inner.conn_id();
        match self.peer_index(id) {
            Some(i) => {
                proof {
                    self.lemma_wf();
                    let w = self@.index_of(id);
                    if w < i {
                        assert(self@.peers[w].conn_id != self@.peers[i as int].conn_id);
                    } else if i < w {
                        assert(self@.peers[i as int].conn_id != self@.peers[w].conn_id);
                    }
                }
                self.peers.set(i, peer);
                proof {
                    assert(peers_view(self.peers@) =~= old(self)@.peers.update(i as int, peer.inner@));
                    assert(channels_view(self.peers@) =~= old(self)@.channels.update(i as int, peer.channel));
                    assert(self@.peers[i as int].conn_id == id);
                    assert forall|p: IpPrefix| #[trigger]
                        table_entries(self.peers_by_ip).contains_key(p) implies self@.has_peer(
                        table_entries(self.peers_by_ip)[p],
                    ) by {
                        let v = table_entries(self.peers_by_ip)[p];
                        assert(old(self)@.has_peer(v));
                        let k = choose|k: int|
                            0 <= k < old(self)@.peers.len() && (#[trigger] old(self)@.peers[k]).conn_id == v;
                        assert(self@.peers[k].conn_id == v);
                    }
                }
            },
            None => {
                self.peers.push(peer);
                proof {
                    assert(peers_view(self.peers@) =~= old(self)@.peers.push(peer.inner@));
                    assert(channels_view(self.peers@) =~= old(self)@.channels.push(peer.channel));
                    assert(self@.peers[self@.peers.len() - 1].conn_id == id);
                    assert forall|p: IpPrefix| #[trigger]
                        table_entries(self.peers_by_ip).contains_key(p) implies self@.has_peer(
                        table_entries(self.peers_by_ip)[p],
                    ) by {
                        let v = table_entries(self.peers_by_ip)[p];
                        assert(old(self)@.has_peer(v));
                        let k = choose|k: int|
                            0 <= k < old(self)@.peers.len() && (#[trigger] old(self)@.peers[k]).conn_id == v;
                        assert(self@.peers[k].conn_id == v);
                    }
                    assert forall|x: int, y: int| 0 <= x < y < self.peers@.len() implies (
                    #[trigger] self.peers@[x]).inner@.conn_id != (#[trigger] self.peers@[y]).inner@.conn_id by {
                        if y < old(self).peers@.len() {
                            assert(old(self).peers@[x].inner@.conn_id != old(self).peers@[y].inner@.conn_id);
                        } else {
                            assert(old(self)@.peers[x].conn_id != id);
                        }
                    }
                }
            },
        }
        let ghost registered = self@;
        let mut i: usize = 0;
        while i < prefixes.len()
            invariant
                self.role() == old(self).role(),
                self.limiter() == old(self).limiter(),
                i <= prefixes.len(),
                self.wf(),
                self@.has_peer(id),
                forall|k: int| 0 <= k < prefixes@.len() ==> (#[trigger] prefixes@[k]).wf(),
                self@.peers == registered.peers,
                self@.channels == registered.channels,
                self@.connections == old(self)@.connections,
                self@.to_stop == old(self)@.to_stop,
                self@.actions == old(self)@.actions,
                self@.device == old(self)@.device,
                self@.awaiting_device == old(self)@.awaiting_device,
                forall|p: IpPrefix| #[trigger]
                    self@.routes.contains_key(p) <==> old(self)@.routes.contains_key(p) || prefixes@.take(
                        i as int,
                    ).contains(p),
                forall|p: IpPrefix| #[trigger]
                    self@.routes.contains_key(p) ==> self@.routes[p] == if prefixes@.take(i as int).contains(p) {
                        id
                    } else {
                        old(self)@.routes[p]
                    },
            decreases prefixes.len() - i,
        {
            let ghost before = self@.routes;
            let prefix = prefixes[i];
            table_insert(&mut self.peers_by_ip, prefix, id);
            proof {
                let prev = prefixes@.take(i as int);
                let next = prefixes@.take(i + 1);
                assert(next == prev.push(prefix));
                assert forall|p: IpPrefix| next.contains(p) <==> prev.contains(p) || p == prefix by {
                    if next.contains(p) {
                        let k = choose|k: int| 0 <= k < next.len() && next[k] == p;
                        if k < prev.len() {
                            assert(prev[k] == p);
                        }
                    }
                    if prev.contains(p) {
                        let k = choose|k: int| 0 <= k < prev.len() && prev[k] == p;
                        assert(next[k] == p);
                    }
                    if p == prefix {
                        assert(next[i as int] == p);
                    }
                }
                assert forall|p: IpPrefix| #[trigger]
                    table_entries(self.peers_by_ip).contains_key(p) implies p.wf() && self@.has_peer(
                    table_entries(self.peers_by_ip)[p],
                ) by {
                    if p != prefix {
                        assert(before.contains_key(p));
                    }
                }
            }
            i += 1;
        }
        assert(prefixes@.take(i as int) == prefixes@);
    }

    /// Whether some network is routed to peer `id`.
    pub fn is_routed(&self, id: ConnId) -> (b: bool)
        ensures
            b == self@.routed(id),
    {
        let entries = table_iter(&self.peers_by_ip);
        let mut i: usize = 0;
        while i < entries.len()
            invariant
                i <= entries.len(),
                forall|k: int| 0 <= k < i ==> (#[trigger] entries@[k]).1 != id,
                forall|p: IpPrefix, v: u128| #[trigger]
                    entries@.contains((p, v)) <==> table_entries(self.peers_by_ip).contains_pair(p, v),
            decreases entries.len() - i,
        {
            if entries[i].1 == id {
                proof {
                    let e = entries@[i as int];
                    assert(entries@.contains(e));
                    assert(table_entries(self.peers_by_ip).contains_pair(e.0, e.1));
                    assert(self@.routes.contains_key(e.0) && self@.routes[e.0] == id);
                }
                return true;
            }
            i += 1;
        }
        proof {
            assert forall|p: IpPrefix| !(#[trigger] self@.routes.contains_key(p) && self@.routes[p] == id) by {
                if self@.routes.contains_key(p) && self@.routes[p] == id {
                    assert(table_entries(self.peers_by_ip).contains_pair(p, id));
                    assert(entries@.contains((p, id)));
                    let k = choose|k: int| 0 <= k < entries@.len() && entries@[k] == (p, id);
                    assert(entries@[k].1 != id);
                }
            }
        }
        false
    }

    /// Takes every route to peer `id` out of the table.
    fn remove_routes(&mut self, id: ConnId)
        requires
            old(self).wf(),
        ensures
            final(self).role() == old(self).role(),
            final(self).limiter() == old(self).limiter(),
            final(self)@ == (TunnelState { routes: old(self)@.routes_without(id), ..old(self)@ }),
            final(self).wf(),
    {
        let entries = table_iter(&self.peers_by_ip);
        let ghost m0 = table_entries(self.peers_by_ip);
        proof {
            self.lemma_wf();
        }
        let mut i: usize = 0;
        while i < entries.len()
            invariant
                self.role() == old(self).role(),
                self.limiter() == old(self).limiter(),
                i <= entries.len(),
                self.wf(),
                m0 == old(self)@.routes,
                forall|p: IpPrefix| #[trigger] m0.contains_key(p) ==> p.wf(),
                forall|p: IpPrefix, v: u128| #[trigger] entries@.contains((p, v)) <==> m0.contains_pair(p, v),
                self@ == (TunnelState { routes: self@.routes, ..old(self)@ }),
                forall|p: IpPrefix| #[trigger]
                    self@.routes.contains_key(p) <==> m0.contains_key(p) && !(m0[p] == id && exists|k: int|
                        0 <= k < i && (#[trigger] entries@[k]).0 == p),
                forall|p: IpPrefix| #[trigger] self@.routes.contains_key(p) ==> self@.routes[p] == m0[p],
            decreases entries.len() - i,
        {
            let (prefix, owner) = entries[i];
            proof {
                assert(entries@.contains(entries@[i as int]));
                assert(m0.contains_pair(prefix, owner));
                assert(m0.contains_key(prefix));
            }
            let ghost before = self@.routes;
            if owner == id {
                table_remove(&mut self.peers_by_ip, prefix);
            }
            proof {
                assert forall|p: IpPrefix| #[trigger]
                    self@.routes.contains_key(p) <==> m0.contains_key(p) && !(m0[p] == id && exists|k: int|
                        0 <= k < i + 1 && (#[trigger] entries@[k]).0 == p) by {
                    if m0.contains_key(p) && m0[p] == id {
                        if exists|k: int| 0 <= k < i + 1 && (#[trigger] entries@[k]).0 == p {
                            let k = choose|k: int| 0 <= k < i + 1 && (#[trigger] entries@[k]).0 == p;
                            if k < i {
                                assert(!before.contains_key(p));
                            }
                        } else {
                            assert(p != prefix) by {
                                if p == prefix {
                                    assert(entries@[i as int].0 == p);
                                }
                            }
                            assert(!(exists|k: int| 0 <= k < i && (#[trigger] entries@[k]).0 == p)) by {
                                if exists|k: int| 0 <= k < i && (#[trigger] entries@[k]).0 == p {
                                    let k = choose|k: int| 0 <= k < i && (#[trigger] entries@[k]).0 == p;
                                    assert(0 <= k < i + 1 && entries@[k].0 == p);
                                }
                            }
                        }
                    }
                }
                assert forall|p: IpPrefix| #[trigger]
                    table_entries(self.peers_by_ip).contains_key(p) implies p.wf() && self@.has_peer(
                    table_entries(self.peers_by_ip)[p],
                ) by {
                    assert(before.contains_key(p));
                    assert(m0.contains_key(p));
                }
            }
            i += 1;
        }
        proof {
            let target = old(self)@.routes_without(id);
            assert forall|p: IpPrefix| #[trigger] self@.routes.contains_key(p) <==> target.contains_key(p) by {
                if m0.contains_key(p) && m0[p] == id {
                    assert(m0.contains_pair(p, id));
                    assert(entries@.contains((p, id)));
                    let k = choose|k: int| 0 <= k < entries@.len() && entries@[k] == (p, id);
                    assert(entries@[k].0 == p);
                }
            }
            assert(self@.routes =~= target);
        }
    }

    /// Stops peer `id`: see [`TunnelState::stop`].
    pub fn stop_peer(&mut self, id: ConnId)
        requires
            old(self).wf(),
        ensures
            final(self).role() == old(self).role(),
            final(self).limiter() == old(self).limiter(),
            final(self).wf(),
            final(self)@ == old(self)@.stop(id),
    {
        if !self.is_routed(id) {
            return ;
        }
        let Some(i) = self.peer_index(id) else {
            return ;
        };
        proof {
            old(self).lemma_wf();
            let w = old(self)@.index_of(id);
            if w < i {
                assert(old(self)@.peers[w].conn_id != old(self)@.peers[i as int].conn_id);
            } else if i < w {
                assert(old(self)@.peers[i as int].conn_id != old(self)@.peers[w].conn_id);
            }
        }
        self.remove_routes(id);
        let peer = self.peers.remove(i);
        proof {
            assert(peers_view(self.peers@) =~= peers_view(old(self).peers@).remove(i as int));
            assert(channels_view(self.peers@) =~= channels_view(old(self).peers@).remove(i as int));
            assert forall|p: IpPrefix| #[trigger]
                table_entries(self.peers_by_ip).contains_key(p) implies self@.has_peer(
                table_entries(self.peers_by_ip)[p],
            ) by {
                let v = table_entries(self.peers_by_ip)[p];
                assert(old(self)@.routes.contains_key(p));
                assert(v != id);
                assert(old(self)@.has_peer(v));
                let k = choose|k: int|
                    0 <= k < old(self)@.peers.len() && (#[trigger] old(self)@.peers[k]).conn_id == v;
                if k < i {
                    assert(self@.peers[k].conn_id == v);
                } else {
                    assert(self@.peers[k - 1].conn_id == v);
                }
            }
            assert forall|x: int, y: int| 0 <= x < y < self.peers@.len() implies (#[trigger] self.peers@[x]).inner@.conn_id
                != (#[trigger] self.peers@[y]).inner@.conn_id by {
                let ox = if x < i {
                    x
                } else {
                    x + 1
                };
                let oy = if y < i {
                    y
                } else {
                    y + 1
                };
                assert(old(self).peers@[ox].inner@.conn_id != old(self).peers@[oy].inner@.conn_id);
            }
        }
        self.actions.push_back(Action::CloseChannel { conn_id: id, channel: peer.channel });
        let had_connection = remove_id(&mut self.peer_connections, id);
        if had_connection {
            self.actions.push_back(Action::CloseConnection { conn_id: id });
        }
        proof {
            let close = seq![ActionView::CloseChannel { conn_id: id, channel: old(self)@.channels[i as int] }];
            let tail = if old(self)@.connections.contains(id) {
                seq![ActionView::CloseConnection { conn_id: id }]
            } else {
                Seq::<ActionView>::empty()
            };
            assert(actions_view(self.actions@) =~= actions_view(old(self).actions@) + close + tail);
        }
    }

    /// Acts on what the session of peer `id` gave when it was asked to
    /// act on the time that has passed: see
    /// [`TunnelState::after_timers`].
    pub fn on_timers_updated(&mut self, id: ConnId, channel: ChannelId, result: Result<Option<Vec<u8>>, Error>)
        requires
            old(self).wf(),
        ensures
            final(self).role() == old(self).role(),
            final(self).limiter() == old(self).limiter(),
            final(self).wf(),
            final(self)@ == old(self)@.after_timers(id, channel, result_view(result)),
    {
        match result {
            Ok(Some(bytes)) => {
                self.actions.push_back(Action::Transmit { conn_id: id, channel, bytes });
                assert(actions_view(self.actions@) =~= actions_view(old(self).actions@).push(
                    ActionView::Transmit { conn_id: id, channel, bytes: bytes@ },
                ));
            },
            Ok(None) => {},
            Err(e) => {
                self.actions.push_back(Action::ReportError(e));
                assert(actions_view(self.actions@) =~= actions_view(old(self).actions@).push(
                    ActionView::ReportError(e),
                ));
                if e.is_fatal_connection_error() {
                    self.peers_to_stop.push_back(id);
                }
            },
        }
    }

    /// Acts on what the session of peer `id` gave when it was asked to
    /// wrap a packet: see [`TunnelState::after_encapsulate`].
    pub fn on_encapsulated(&mut self, id: ConnId, channel: ChannelId, result: Result<Option<Vec<u8>>, Error>)
        requires
            old(self).wf(),
        ensures
            final(self).role() == old(self).role(),
            final(self).limiter() == old(self).limiter(),
            final(self).wf(),
            final(self)@ == old(self)@.after_encapsulate(id, channel, result_view(result)),
    {
        match result {
            Ok(Some(bytes)) => {
                self.actions.push_back(Action::Transmit { conn_id: id, channel, bytes });
                assert(actions_view(self.actions@) =~= actions_view(old(self).actions@).push(
                    ActionView::Transmit { conn_id: id, channel, bytes: bytes@ },
                ));
            },
            Ok(None) => {},
            Err(e) => {
                if e.is_fatal_connection_error() {
                    self.peers_to_stop.push_back(id);
                }
            },
        }
    }

    /// Asks the session of the peer at `index` to wrap `packet`, and
    /// acts on what it gives: see [`TunnelState::after_encapsulate`].
    /// What the session gives is up to it, but for a packet that the
    /// peer cannot prepare: then the result is that error.
    pub fn encapsulate(&mut self, packet: MutableIpPacket, dest: IpAddress, index: usize)
        requires
            old(self).wf(),
            index < old(self)@.peers.len(),
            packet.wf(),
            packet@.len() + DATA_OVERHEAD <= MAX_UDP_SIZE,
        ensures
            final(self).role() == old(self).role(),
            final(self).limiter() == old(self).limiter(),
            final(self).wf(),
            exists|result: Result<Option<Seq<u8>>, Error>|
                final(self)@ == #[trigger] old(self)@.after_encapsulate(
                    old(self)@.peers[index as int].conn_id,
                    old(self)@.channels[index as int],
                    result,
                ) && (old(self)@.peers[index as int].outbound(packet@) matches Err(e) ==> result == Err::<
                    Option<Seq<u8>>,
                    Error,
                >(e)),
    {
        let peer = &mut self.peers[index];
        let id = peer.inner.conn_id();
        let channel = peer.channel;
        let result = peer.inner.encapsulate(packet, dest, &mut self.write_buf);
        proof {
            assert(peers_view(self.peers@) =~= peers_view(old(self).peers@));
            assert(channels_view(self.peers@) =~= channels_view(old(self).peers@));
            assert forall|p: IpPrefix| #[trigger]
                table_entries(self.peers_by_ip).contains_key(p) implies self@.has_peer(
                table_entries(self.peers_by_ip)[p],
            ) by {
                let v = table_entries(self.peers_by_ip)[p];
                assert(old(self)@.has_peer(v));
                let k = choose|k: int|
                    0 <= k < old(self)@.peers.len() && (#[trigger] old(self)@.peers[k]).conn_id == v;
                assert(self@.peers[k].conn_id == v);
            }
            assert forall|x: int, y: int| 0 <= x < y < self.peers@.len() implies (#[trigger] self.peers@[x]).inner@.conn_id
                != (#[trigger] self.peers@[y]).inner@.conn_id by {
                assert(self@.peers[x] == old(self)@.peers[x]);
                assert(self@.peers[y] == old(self)@.peers[y]);
                assert(old(self).peers@[x].inner@.conn_id != old(self).peers@[y].inner@.conn_id);
            }
        }
        let ghost given = result_view(result);
        proof {
            assert(old(self)@.peers[index as int] == old(self).peers@[index as int].inner@);
            assert(old(self)@.channels[index as int] == old(self).peers@[index as int].channel);
            assert(self@ == old(self)@);
        }
        self.on_encapsulated(id, channel, result);
        assert(self@ == old(self)@.after_encapsulate(
            old(self)@.peers[index as int].conn_id,
            old(self)@.channels[index as int],
            given,
        ));
    }

    /// Refreshes the peer at `index` as of `now`: see
    /// [`TunnelState::refresh`]. What its session gives is up to the
    /// session.
    pub fn refresh_peer(&mut self, index: usize, now: Timestamp)
        requires
            old(self).wf(),
            index < old(self)@.peers.len(),
        ensures
            final(self).role() == old(self).role(),
            final(self).limiter() == old(self).limiter(),
            final(self).wf(),
            exists|result: Result<Option<Seq<u8>>, Error>|
                timer_result(result) && final(self)@ == #[trigger] old(self)@.refresh(index as int, now, result),
    {
        let peer = &mut self.peers[index];
        let id = peer.inner.conn_id();
        let channel = peer.channel;
        peer.inner.expire_resources_at(now);
        let emptied = peer.inner.is_emptied();
        let result = if emptied {
            Ok(None)
        } else {
            peer.inner.update_timers()
        };
        let ghost given = result_view(result);
        let ghost before = old(self)@;
        proof {
            let refreshed = before.peers[index as int].expire(now);
            assert(before.peers[index as int] == old(self).peers@[index as int].inner@);
            assert(before.channels[index as int] == old(self).peers@[index as int].channel);
            assert(peers_view(self.peers@) =~= before.peers.update(index as int, refreshed));
            assert(channels_view(self.peers@) =~= before.channels);
            assert forall|p: IpPrefix| #[trigger]
                table_entries(self.peers_by_ip).contains_key(p) implies self@.has_peer(
                table_entries(self.peers_by_ip)[p],
            ) by {
                let v = table_entries(self.peers_by_ip)[p];
                assert(before.has_peer(v));
                let w = choose|w: int| 0 <= w < before.peers.len() && (#[trigger] before.peers[w]).conn_id == v;
                assert(self@.peers[w].conn_id == v);
            }
            assert forall|x: int, y: int| 0 <= x < y < self.peers@.len() implies (#[trigger] self.peers@[x]).inner@.conn_id
                != (#[trigger] self.peers@[y]).inner@.conn_id by {
                assert(self@.peers[x].conn_id == before.peers[x].conn_id);
                assert(self@.peers[y].conn_id == before.peers[y].conn_id);
                assert(old(self).peers@[x].inner@.conn_id != old(self).peers@[y].inner@.conn_id);
            }
            if !emptied {
                let (reply, buf) = choose|reply: crate::noise::SessionReply, buf: Seq<u8>|
                    buf.len() == crate::noise::HANDSHAKE_INIT_SIZE && reply.fits(buf.len()) && !reply.for_tunnel()
                        && crate::peer::bytes_agree(result, #[trigger] crate::peer::network_bytes(reply, buf));
                assert(timer_result(given));
            }
        }
        if emptied {
            self.peers_to_stop.push_back(id);
        } else {
            self.on_timers_updated(id, channel, result);
        }
        assert(self@ == before.refresh(index as int, now, given));
    }

    /// Refreshes the peers, as of `now`. Each peer that some network is
    /// routed to is refreshed once, however many networks those are, as
    /// [`TunnelState::refresh`] says; the others stay as they are.
    ///
    /// So each routed peer loses the grants that have ended; those that
    /// are left emptied are queued to be stopped, each once; and all the
    /// work that is left is messages to send and errors to report.
    pub fn refresh_peers(&mut self, now: Timestamp)
        requires
            old(self).wf(),
        ensures
            final(self).role() == old(self).role(),
            final(self).limiter() == old(self).limiter(),
            final(self).wf(),
            old(self)@.refreshed_as(final(self)@, now),
    {
        let entries = table_iter(&self.peers_by_ip);
        let ids = unique_ids(&entries);
        let ghost base = self.peers_to_stop@.len() as int;
        proof {
            self.lemma_wf();
            assert forall|id: ConnId| ids@.contains(id) <==> old(self)@.routed(id) by {
                if ids@.contains(id) {
                    let i = choose|i: int| 0 <= i < entries@.len() && (#[trigger] entries@[i]).1 == id;
                    assert(entries@.contains(entries@[i]));
                    assert(self@.routes.contains_pair(entries@[i].0, entries@[i].1));
                    assert(self@.routes.contains_key(entries@[i].0));
                }
                if old(self)@.routed(id) {
                    let p = choose|p: IpPrefix| #[trigger] self@.routes.contains_key(p) && self@.routes[p] == id;
                    assert(self@.routes.contains_pair(p, id));
                    assert(entries@.contains((p, id)));
                    let i = choose|i: int| 0 <= i < entries@.len() && entries@[i] == (p, id);
                    assert(entries@[i].1 == id);
                }
            }
            assert(self@.to_stop.skip(base) =~= Seq::<ConnId>::empty());
            assert(ids@.take(0) =~= Seq::<ConnId>::empty());
        }
        let ghost mut order: Seq<int> = Seq::empty();
        let ghost mut results: Seq<Result<Option<Seq<u8>>, Error>> = Seq::empty();
        let mut k: usize = 0;
        while k < ids.len()
            invariant
                self.role() == old(self).role(),
                self.limiter() == old(self).limiter(),
                k <= ids.len(),
                self.wf(),
                old(self).wf(),
                order.len() == k,
                results.len() == k,
                forall|j: int|
                    0 <= j < k ==> 0 <= #[trigger] order[j] < old(self)@.peers.len() && old(self)@.peers[order[j]].conn_id
                        == ids@[j],
                forall|j: int| 0 <= j < k ==> timer_result(#[trigger] results[j]),
                self@ == old(self)@.refresh_all(order, results, now),
                ids@.no_duplicates(),
                forall|id: ConnId| ids@.contains(id) <==> old(self)@.routed(id),
                base == old(self)@.to_stop.len(),
                self@.public_key == old(self)@.public_key,
                self@.routes == old(self)@.routes,
                self@.channels == old(self)@.channels,
                self@.connections == old(self)@.connections,
                self@.device == old(self)@.device,
                self@.awaiting_device == old(self)@.awaiting_device,
                self@.peers.len() == old(self)@.peers.len(),
                forall|i: int|
                    0 <= i < old(self)@.peers.len() ==> #[trigger] self@.peers[i] == if ids@.take(
                        k as int,
                    ).contains(old(self)@.peers[i].conn_id) {
                        old(self)@.peers[i].expire(now)
                    } else {
                        old(self)@.peers[i]
                    },
                old(self)@.to_stop.is_prefix_of(self@.to_stop),
                old(self)@.actions.is_prefix_of(self@.actions),
                self@.to_stop.skip(base).no_duplicates(),
                forall|id: ConnId| #[trigger]
                    self@.to_stop.skip(base).contains(id) ==> ids@.take(k as int).contains(id),
                forall|i: int|
                    0 <= i < old(self)@.peers.len() && ids@.take(k as int).contains(old(self)@.peers[i].conn_id)
                        && (#[trigger] old(self)@.peers[i]).expire(now).emptied() ==> self@.to_stop.skip(
                        base,
                    ).contains(old(self)@.peers[i].conn_id),
                forall|j: int|
                    old(self)@.actions.len() <= j < self@.actions.len() ==> refresh_work(#[trigger] self@.actions[j]),
            decreases ids.len() - k,
        {
            let id = ids[k];
            let ghost before = self@;
            let ghost done = ids@.take(k as int);
            let ghost next = ids@.take(k + 1);
            proof {
                assert(next == done.push(id));
                assert(!done.contains(id)) by {
                    if done.contains(id) {
                        let w = choose|w: int| 0 <= w < done.len() && done[w] == id;
                        assert(ids@[w] == ids@[k as int]);
                    }
                }
                assert forall|x: ConnId| next.contains(x) <==> done.contains(x) || x == id by {
                    if next.contains(x) {
                        let w = choose|w: int| 0 <= w < next.len() && next[w] == x;
                        if w < done.len() {
                            assert(done[w] == x);
                        }
                    }
                    if done.contains(x) {
                        let w = choose|w: int| 0 <= w < done.len() && done[w] == x;
                        assert(next[w] == x);
                    }
                    if x == id {
                        assert(next[k as int] == x);
                    }
                }
                assert(ids@.contains(ids@[k as int]));
                assert(old(self)@.routed(id));
                let p = choose|p: IpPrefix| #[trigger] old(self)@.routes.contains_key(p) && old(self)@.routes[p] == id;
                self.lemma_wf();
                old(self).lemma_wf();
                assert(self@.has_peer(self@.routes[p]));
            }
            let Some(index) = self.peer_index(id) else {
                return ;
            };
            self.refresh_peer(index, now);
            proof {
                let result = choose|result: Result<Option<Seq<u8>>, Error>|
                    timer_result(result) && self@ == #[trigger] before.refresh(index as int, now, result);
                let refreshed = before.peers[index as int].expire(now);
                assert(before.peers[index as int] == old(self)@.peers[index as int]) by {
                    assert(!done.contains(old(self)@.peers[index as int].conn_id));
                }
                assert forall|i: int| 0 <= i < old(self)@.peers.len() implies #[trigger] self@.peers[i] == if next.contains(
                    old(self)@.peers[i].conn_id,
                ) {
                    old(self)@.peers[i].expire(now)
                } else {
                    old(self)@.peers[i]
                } by {
                    if i != index {
                        assert(self@.peers[i] == before.peers[i]);
                        if i < index {
                            assert(old(self)@.peers[i].conn_id != old(self)@.peers[index as int].conn_id);
                        } else {
                            assert(old(self)@.peers[index as int].conn_id != old(self)@.peers[i].conn_id);
                        }
                    }
                }
                let grown = self@.to_stop.skip(base);
                let was = before.to_stop.skip(base);
                assert(grown == was || grown == was.push(id)) by {
                    if self@.to_stop == before.to_stop.push(id) {
                        assert(grown =~= was.push(id));
                    }
                }
                assert(old(self)@.to_stop.is_prefix_of(self@.to_stop));
                assert(old(self)@.actions.is_prefix_of(self@.actions));
                assert(grown.no_duplicates()) by {
                    if grown == was.push(id) {
                        assert forall|x: int, y: int|
                            0 <= x < grown.len() && 0 <= y < grown.len() && x != y implies grown[x] != grown[y] by {
                            if x < was.len() && y < was.len() {
                                assert(was[x] != was[y]);
                            } else if x < was.len() {
                                assert(was.contains(was[x]));
                            } else {
                                assert(was.contains(was[y]));
                            }
                        }
                    }
                }
                assert forall|x: ConnId| #[trigger] grown.contains(x) implies next.contains(x) by {
                    let w = choose|w: int| 0 <= w < grown.len() && grown[w] == x;
                    if w < was.len() {
                        assert(was[w] == x);
                        assert(was.contains(x));
                    }
                }
                assert forall|i: int|
                    0 <= i < old(self)@.peers.len() && next.contains(old(self)@.peers[i].conn_id) && (
                    #[trigger] old(self)@.peers[i]).expire(now).emptied() implies grown.contains(
                    old(self)@.peers[i].conn_id,
                ) by {
                    let x = old(self)@.peers[i].conn_id;
                    if done.contains(x) {
                        assert(was.contains(x));
                        let w = choose|w: int| 0 <= w < was.len() && was[w] == x;
                        assert(grown[w] == x);
                    } else {
                        assert(x == id);
                        if i < index {
                            assert(old(self)@.peers[i].conn_id != old(self)@.peers[index as int].conn_id);
                        } else if index < i {
                            assert(old(self)@.peers[index as int].conn_id != old(self)@.peers[i].conn_id);
                        }
                        assert(refreshed.emptied());
                        assert(grown[grown.len() - 1] == id);
                    }
                }
                assert forall|j: int| old(self)@.actions.len() <= j < self@.actions.len() implies refresh_work(
                    #[trigger] self@.actions[j],
                ) by {
                    if j < before.actions.len() {
                        assert(self@.actions[j] == before.actions[j]);
                    }
                }
                assert(order.push(index as int).drop_last() =~= order);
                assert(results.push(result).drop_last() =~= results);
                order = order.push(index as int);
                results = results.push(result);
            }
            k += 1;
        }
        proof {
            assert(ids@.take(k as int) == ids@);
            let start = old(self)@;
            old(self).lemma_wf();
            assert forall|a: int, b: int| 0 <= a < order.len() && 0 <= b < order.len() && a != b implies order[a]
                != order[b] by {
                if order[a] == order[b] {
                    assert(ids@[a] == ids@[b]);
                }
            }
            assert forall|i: int| #[trigger]
                order.contains(i) <==> 0 <= i < start.peers.len() && start.routed(start.peers[i].conn_id) by {
                if order.contains(i) {
                    let j = choose|j: int| 0 <= j < order.len() && order[j] == i;
                    assert(ids@.contains(ids@[j]));
                }
                if 0 <= i < start.peers.len() && start.routed(start.peers[i].conn_id) {
                    assert(ids@.contains(start.peers[i].conn_id));
                    let j = choose|j: int| 0 <= j < ids@.len() && ids@[j] == start.peers[i].conn_id;
                    let w = order[j];
                    if w < i {
                        assert(start.peers[w].conn_id != start.peers[i].conn_id);
                    } else if i < w {
                        assert(start.peers[i].conn_id != start.peers[w].conn_id);
                    }
                    assert(order[j] == i);
                }
            }
            assert(start.refresh_order(order));
            assert(self@ == start.refresh_all(order, results, now));
        }
    }

    /// Routes a packet that came from the device: has the session of the
    /// peer that its destination is routed to wrap it, and says whether
    /// there is such a peer.
    pub fn route_packet(&mut self, packet: MutableIpPacket) -> (routed: bool)
        requires
            old(self).wf(),
            packet.wf(),
            packet@.len() + DATA_OVERHEAD <= MAX_UDP_SIZE,
        ensures
            final(self).role() == old(self).role(),
            final(self).limiter() == old(self).limiter(),
            final(self).wf(),
            routed == old(self)@.route_of(crate::ip_packet::destination_of(packet@)->0) is Some,
            !routed ==> final(self)@ == old(self)@,
            routed ==> exists|result: Result<Option<Seq<u8>>, Error>|
                old(self)@.wrapped(packet@, result) && final(self)@ == #[trigger] old(self)@.routed_packet(
                    packet@,
                    result,
                ),
            final(self)@.public_key == old(self)@.public_key,
            final(self)@.routes == old(self)@.routes,
            final(self)@.peers == old(self)@.peers,
            final(self)@.channels == old(self)@.channels,
            final(self)@.connections == old(self)@.connections,
            final(self)@.device == old(self)@.device,
            final(self)@.awaiting_device == old(self)@.awaiting_device,
            old(self)@.to_stop.is_prefix_of(final(self)@.to_stop),
            old(self)@.actions.is_prefix_of(final(self)@.actions),
    {
        let dest = packet.destination();
        let found = table_longest_match(&self.peers_by_ip, dest);
        proof {
            lemma_owner_of(self@.routes, dest, found);
        }
        let Some((p, id)) = found else {
            return false;
        };
        let Some(index) = self.peer_index(id) else {
            proof {
                assert(self@.has_peer(table_entries(self.peers_by_ip)[p]));
            }
            return true;
        };
        proof {
            self.lemma_wf();
            let w = self@.index_of(id);
            if w < index {
                assert(self@.peers[w].conn_id != self@.peers[index as int].conn_id);
            } else if index < w {
                assert(self@.peers[index as int].conn_id != self@.peers[w].conn_id);
            }
        }
        self.encapsulate(packet, dest, index);
        proof {
            let before = old(self)@;
            let result = choose|result: Result<Option<Seq<u8>>, Error>|
                self@ == #[trigger] before.after_encapsulate(
                    before.peers[index as int].conn_id,
                    before.channels[index as int],
                    result,
                ) && (before.peers[index as int].outbound(packet@) matches Err(e) ==> result == Err::<
                    Option<Seq<u8>>,
                    Error,
                >(e));
            assert(self@ == before.after_encapsulate(id, before.channels[before.index_of(id)], result));
            assert(before.to_stop.is_prefix_of(self@.to_stop));
            assert(before.actions.is_prefix_of(self@.actions));
            let d = crate::ip_packet::destination_of(packet@)->0;
            assert(d == dest);
            assert(before.route_of(d) == Some(id));
            assert(before.wrapped(packet@, result));
            assert(self@ == before.routed_packet(packet@, result));
        }
        true
    }

    /// Takes up what has come up, for one round: see [`is_round`].
    ///
    /// A round that gets as far asks the role for an event, once, and
    /// ends with the event that the role has. Any other round leaves the
    /// role as it is.
    pub fn round(&mut self, signals: &mut Signals) -> (r: Round)
        requires
            old(self).wf(),
        ensures
            final(self).wf(),
            final(self).limiter() == old(self).limiter(),
            is_round(old(self)@, old(signals)@, final(self)@, final(signals)@, r),
            asks_role(old(self)@, old(signals)@) ==> exists|role: &mut R|
                mut_ref_current(role) == old(self).role() && mut_ref_future(role) == final(self).role()
                    && #[trigger] polled(role, role_answer(r)),
            !asks_role(old(self)@, old(signals)@) ==> final(self).role() == old(self).role(),
    {
        if let Some(id) = self.peers_to_stop.pop_front() {
            if !self.is_routed(id) {
                return Round::Again;
            }
            self.stop_peer(id);
        }
        let ghost torn = self@;
        assert(torn == old(self)@.teardown().0);
        if signals.rate_limit_reset {
            signals.rate_limit_reset = false;
            rate_limiter_reset(&self.rate_limiter);
            return Round::Again;
        }
        if signals.peer_refresh {
            signals.peer_refresh = false;
            let t = now();
            self.refresh_peers(t);
            assert(torn.refreshed_as(self@, t));
            return Round::Again;
        }
        if signals.mtu_refresh {
            signals.mtu_refresh = false;
            if self.device.is_none() {
                return Round::Again;
            }
            self.actions.push_back(Action::RefreshMtu);
            assert(actions_view(self.actions@) =~= torn.actions.push(ActionView::RefreshMtu));
        }
        let ghost asked = self.role_state;
        let answer = self.role_state.poll_next_event();
        proof {
            let role = choose|role: &mut R|
                mut_ref_current(role) == asked && mut_ref_future(role) == self.role_state && #[trigger] call_ensures(
                    R::poll_next_event,
                    (role,),
                    answer,
                );
            assert(polled(role, answer));
        }
        if let Poll::Ready(event) = answer {
            return Round::Ready(event);
        }
        if let Some(id) = signals.stop_requests.pop_front() {
            self.peers_to_stop.push_back(id);
            return Round::Again;
        }
        Round::Pending
    }

    /// Takes up what has come up, round by round, until there is an
    /// event for the application or nothing is left to take up: see
    /// [`is_poll`].
    ///
    /// So when the poll is pending, all that had come up is taken up. A
    /// tunnel with nothing to take up and nobody to stop stays as it is.
    /// In any case routes, peers and connections can only go, the work
    /// that was there stays first in line, and the device is left alone.
    ///
    /// The role is asked for an event time after time, each time in the
    /// state that the time before left, and nothing else is done to it.
    /// It had no event each time but the last, and what it answered the
    /// last time is the result: the events come as the role gives them.
    pub fn poll_next_event_common(&mut self, signals: &mut Signals) -> (r: Poll<Event>)
        requires
            old(self).wf(),
        ensures
            final(self).wf(),
            final(self).limiter() == old(self).limiter(),
            is_poll(old(self)@, old(signals)@, final(self)@, final(signals)@, r),
            r is Pending ==> final(signals).pending() == 0,
            final(signals).pending() <= old(signals).pending(),
            final(self)@.public_key == old(self)@.public_key,
            final(self)@.device == old(self)@.device,
            final(self)@.awaiting_device == old(self)@.awaiting_device,
            final(self)@.connections.subset_of(old(self)@.connections),
            routes_within(final(self)@.routes, old(self)@.routes),
            forall|id: ConnId| final(self)@.has_peer(id) ==> old(self)@.has_peer(id),
            old(self)@.actions.is_prefix_of(final(self)@.actions),
            old(signals).pending() == 0 && old(self)@.to_stop.len() == 0 ==> final(self)@ == old(self)@,
            exists|asks: Seq<&mut R>|
                #[trigger] asked_until(asks, r) && mut_ref_current(asks[0]) == old(self).role() && mut_ref_future(
                    asks.last(),
                ) == final(self).role() && forall|i: int|
                    0 <= i < asks.len() - 1 ==> mut_ref_future(#[trigger] asks[i]) == mut_ref_current(asks[i + 1]),
    {
        let ghost mut states: Seq<TunnelState> = seq![self@];
        let ghost mut seen: Seq<SignalsState> = seq![signals@];
        assert(all_pending(Seq::<&mut R>::empty()));
        loop
            invariant
                self.wf(),
                self.limiter() == old(self).limiter(),
                is_run(states, seen, old(self)@, old(signals)@),
                states.last() == self@,
                seen.last() == signals@,
                old(signals).pending() == 0 && old(self)@.to_stop.len() == 0 ==> self@ == old(self)@,
                signals.pending() <= old(signals).pending(),
                self@.public_key == old(self)@.public_key,
                self@.device == old(self)@.device,
                self@.awaiting_device == old(self)@.awaiting_device,
                self@.connections.subset_of(old(self)@.connections),
                routes_within(self@.routes, old(self)@.routes),
                forall|id: ConnId| self@.has_peer(id) ==> old(self)@.has_peer(id),
                old(self)@.actions.is_prefix_of(self@.actions),
                exists|asks: Seq<&mut R>|
                    #[trigger] all_pending(asks) && (asks.len() == 0 ==> self.role() == old(self).role()) && (asks.len()
                        > 0 ==> mut_ref_current(asks[0]) == old(self).role() && mut_ref_future(asks.last())
                        == self.role()) && forall|i: int|
                        0 <= i < asks.len() - 1 ==> mut_ref_future(#[trigger] asks[i]) == mut_ref_current(asks[i + 1]),
            decreases signals.pending(), self@.to_stop.len(),
        {
            let ghost before = self@;
            let ghost had = signals@;
            let ghost asked = self.role();
            let outcome = self.round(signals);
            proof {
                lemma_round(before, had, self@, signals@, outcome);
                let sofar = choose|asks: Seq<&mut R>|
                    #[trigger] all_pending(asks) && (asks.len() == 0 ==> asked == old(self).role()) && (asks.len() > 0
                        ==> mut_ref_current(asks[0]) == old(self).role() && mut_ref_future(asks.last()) == asked)
                        && forall|i: int|
                        0 <= i < asks.len() - 1 ==> mut_ref_future(#[trigger] asks[i]) == mut_ref_current(asks[i + 1]);
                if asks_role(before, had) {
                    let role = choose|role: &mut R|
                        mut_ref_current(role) == asked && mut_ref_future(role) == self.role() && #[trigger] polled(
                            role,
                            role_answer(outcome),
                        );
                    let asks = sofar.push(role);
                    assert(asks.last() == role);
                    assert forall|i: int| 0 <= i < asks.len() - 1 implies mut_ref_future(#[trigger] asks[i])
                        == mut_ref_current(asks[i + 1]) by {
                        assert(asks[i] == sofar[i]);
                        if i + 1 < sofar.len() {
                            assert(asks[i + 1] == sofar[i + 1]);
                        }
                    }
                    assert forall|i: int| 0 <= i < asks.len() - 1 implies polled(#[trigger] asks[i], Poll::Pending) by {
                        assert(asks[i] == sofar[i]);
                    }
                    assert(mut_ref_current(asks[0]) == old(self).role());
                    if outcome is Again {
                        assert(all_pending(asks));
                    } else {
                        assert(asked_until(asks, role_answer(outcome)));
                    }
                } else {
                    assert(outcome is Again);
                    assert(all_pending(sofar));
                }
            }
            match outcome {
                Round::Again => {
                    proof {
                        let longer = states.push(self@);
                        let more = seen.push(signals@);
                        assert forall|i: int| 0 <= i < longer.len() - 1 implies #[trigger] round_again(
                            longer,
                            more,
                            i,
                        ) by {
                            if i < states.len() - 1 {
                                assert(round_again(states, seen, i));
                            }
                        }
                        states = longer;
                        seen = more;
                    }
                },
                Round::Ready(event) => {
                    proof {
                        assert(is_run(states, seen, old(self)@, old(signals)@) && is_round(
                            states.last(),
                            seen.last(),
                            self@,
                            signals@,
                            last_round(Poll::Ready(event)),
                        ));
                    }
                    return Poll::Ready(event);
                },
                Round::Pending => {
                    proof {
                        assert(is_run(states, seen, old(self)@, old(signals)@) && is_round(
                            states.last(),
                            seen.last(),
                            self@,
                            signals@,
                            last_round(Poll::<Event>::Pending),
                        ));
                    }
                    return Poll::Pending;
                },
            }
        }
    }

    /// The statistics of the tunnel: its public key, each route with
    /// the statistics of the peer it leads to, and the peers that have
    /// an open connection.
    pub fn stats(&self) -> (s: TunnelStats)
        requires
            self.wf(),
        ensures
            s.public_key@ == self@.public_key,
            s.peer_connections@.to_set() == self@.connections,
            s.peer_connections@.no_duplicates(),
            lists_routes(s.peers_by_ip@, self@),
    {
        let entries = table_iter(&self.peers_by_ip);
        let mut peers_by_ip: Vec<(IpPrefix, PeerStats)> = Vec::new();
        let mut i: usize = 0;
        while i < entries.len()
            invariant
                i <= entries.len(),
                self.wf(),
                forall|p: IpPrefix, v: u128| #[trigger]
                    entries@.contains((p, v)) <==> table_entries(self.peers_by_ip).contains_pair(p, v),
                peers_by_ip@.len() == i,
                entries@.no_duplicates(),
                forall|k: int|
                    0 <= k < i ==> (#[trigger] peers_by_ip@[k]).0 == entries@[k].0 && peers_by_ip@[k].1.describes(
                        self@.peers[self@.index_of(entries@[k].1)],
                    ),
            decreases entries.len() - i,
        {
            let (prefix, id) = entries[i];
            proof {
                assert(entries@.contains(entries@[i as int]));
                assert(table_entries(self.peers_by_ip).contains_pair(prefix, id));
                assert(self@.has_peer(table_entries(self.peers_by_ip)[prefix]));
            }
            match self.peer_index(id) {
                Some(index) => {
                    proof {
                        self.lemma_wf();
                        let w = self@.index_of(id);
                        if w < index {
                            assert(self@.peers[w].conn_id != self@.peers[index as int].conn_id);
                        } else if index < w {
                            assert(self@.peers[index as int].conn_id != self@.peers[w].conn_id);
                        }
                        assert(self@.peers[index as int] == self.peers@[index as int].inner@);
                    }
                    peers_by_ip.push((prefix, self.peers[index].inner.stats()));
                },
                None => {},
            }
            i += 1;
        }
        let mut peer_connections: Vec<ConnId> = Vec::new();
        let mut j: usize = 0;
        while j < self.peer_connections.len()
            invariant
                j <= self.peer_connections.len(),
                peer_connections@ == self.peer_connections@.take(j as int),
            decreases self.peer_connections.len() - j,
        {
            peer_connections.push(self.peer_connections[j]);
            assert(self.peer_connections@.take(j + 1) == self.peer_connections@.take(j as int).push(
                self.peer_connections@[j as int],
            ));
            j += 1;
        }
        proof {
            assert(self.peer_connections@.take(j as int) == self.peer_connections@);
            assert forall|k: int| 0 <= k < peers_by_ip@.len() implies self@.routes.contains_key(
                (#[trigger] peers_by_ip@[k]).0,
            ) && peers_by_ip@[k].1.describes(self@.peers[self@.index_of(self@.routes[peers_by_ip@[k].0])]) by {
                assert(entries@.contains(entries@[k]));
                assert(table_entries(self.peers_by_ip).contains_pair(entries@[k].0, entries@[k].1));
            }
            assert forall|j: int, k: int| 0 <= j < k < peers_by_ip@.len() implies (#[trigger] peers_by_ip@[j]).0 != (
            #[trigger] peers_by_ip@[k]).0 by {
                if peers_by_ip@[j].0 == peers_by_ip@[k].0 {
                    assert(entries@.contains(entries@[j]));
                    assert(entries@.contains(entries@[k]));
                    assert(table_entries(self.peers_by_ip).contains_pair(entries@[j].0, entries@[j].1));
                    assert(table_entries(self.peers_by_ip).contains_pair(entries@[k].0, entries@[k].1));
                    assert(entries@[j] == entries@[k]);
                }
            }
            assert forall|p: IpPrefix| #[trigger] self@.routes.contains_key(p) implies exists|k: int|
                0 <= k < peers_by_ip@.len() && (#[trigger] peers_by_ip@[k]).0 == p by {
                assert(self@.routes.contains_pair(p, self@.routes[p]));
                assert(entries@.contains((p, self@.routes[p])));
                let k = choose|k: int| 0 <= k < entries@.len() && entries@[k] == (p, self@.routes[p]);
                assert(peers_by_ip@[k].0 == p);
            }
            assert(lists_routes(peers_by_ip@, self@));
        }
        TunnelStats { public_key: self.public_key, peers_by_ip, peer_connections }
    }

    /// Detaches the device.
    pub fn clear_device(&mut self)
        requires
            old(self).wf(),
        ensures
            final(self).role() == old(self).role(),
            final(self).limiter() == old(self).limiter(),
            final(self).wf(),
            final(self)@ == (TunnelState { device: None, ..old(self)@ }),
    {
        self.device = None;
    }

    /// Reads packets from the device and routes each, until reading
    /// stops: see [`ingress_stop`] and [`TunnelState::ingress_of`]. A
    /// packet that is routed to no peer is dropped. The result is why
    /// reading stopped.
    pub fn poll_ingress(&mut self) -> (stop: IngressStop)
        requires
            old(self).wf(),
            old(self)@.device is Some,
        ensures
            final(self).role() == old(self).role(),
            final(self).limiter() == old(self).limiter(),
            final(self).wf(),
            stop == ingress_stop(old(self)@.device->0.io.unread, old(self)@.device->0.mtu as int).1,
            exists|results: Seq<Result<Option<Seq<u8>>, Error>>| #[trigger]
                old(self)@.ingress_of(
                    ingress_packets(old(self)@.device->0.io.unread, old(self)@.device->0.mtu as int),
                    Seq::empty(),
                    results,
                    final(self)@,
                ),
            final(self)@.device is Some,
            after_ingress(old(self)@.device->0, final(self)@.device->0),
            final(self)@.device->0.io.written == old(self)@.device->0.io.written,
            final(self)@.public_key == old(self)@.public_key,
            final(self)@.routes == old(self)@.routes,
            final(self)@.peers == old(self)@.peers,
            final(self)@.channels == old(self)@.channels,
            final(self)@.connections == old(self)@.connections,
            final(self)@.awaiting_device == old(self)@.awaiting_device,
            old(self)@.to_stop.is_prefix_of(final(self)@.to_stop),
            old(self)@.actions.is_prefix_of(final(self)@.actions),
    {
        let ghost start = self@;
        let ghost d0 = self@.device->0;
        let Some(mut device) = self.device.take() else {
            return IngressStop::Pending;
        };
        let ghost mtu = d0.mtu as int;
        let ghost mut taken: int = 0;
        let ghost mut packets: Seq<Seq<u8>> = Seq::empty();
        let ghost mut results: Seq<Result<Option<Seq<u8>>, Error>> = Seq::empty();
        let mut stop: Option<IngressStop> = None;
        proof {
            assert(d0.io.unread.skip(0) =~= d0.io.unread);
            assert(packets + ingress_packets(d0.io.unread, mtu) =~= ingress_packets(d0.io.unread, mtu));
        }
        while stop.is_none()
            invariant
                self.role() == old(self).role(),
                self.limiter() == old(self).limiter(),
                self.wf(),
                start == old(self)@,
                start.device == Some(d0),
                device.config.mtu() == d0.mtu,
                device.config.mtu() + DATA_OVERHEAD <= MAX_UDP_SIZE,
                device.io@.written == d0.io.written,
                0 <= taken <= d0.io.unread.len(),
                ingress_stop(d0.io.unread, mtu).1 == ingress_stop(d0.io.unread.skip(taken), mtu).1,
                mtu == d0.mtu as int,
                match stop {
                    None => device.io@.unread == d0.io.unread.skip(taken) && ingress_stop(d0.io.unread, mtu).0
                        == taken + ingress_stop(d0.io.unread.skip(taken), mtu).0 && ingress_packets(
                        d0.io.unread,
                        mtu,
                    ) == packets + ingress_packets(d0.io.unread.skip(taken), mtu),
                    Some(why) => why == ingress_stop(d0.io.unread, mtu).1 && device.io@.unread
                        == d0.io.unread.skip(ingress_stop(d0.io.unread, mtu).0 as int) && ingress_packets(
                        d0.io.unread,
                        mtu,
                    ) == packets,
                },
                start.all_wrapped(packets, results),
                self@ == (TunnelState { device: None, ..start.routed_all(packets, results) }),
                self@.public_key == old(self)@.public_key,
                self@.routes == old(self)@.routes,
                self@.peers == old(self)@.peers,
                self@.channels == old(self)@.channels,
                self@.connections == old(self)@.connections,
                self@.awaiting_device == old(self)@.awaiting_device,
                old(self)@.to_stop.is_prefix_of(self@.to_stop),
                old(self)@.actions.is_prefix_of(self@.actions),
            decreases
                    if stop is None {
                        d0.io.unread.len() - taken + 1
                    } else {
                        0
                    },
        {
            let ghost rest = d0.io.unread.skip(taken);
            let ghost before = self@;
            proof {
                if rest.len() > 0 {
                    assert(rest[0] == d0.io.unread[taken]);
                    assert(rest.drop_first() =~= d0.io.unread.skip(taken + 1));
                }
            }
            match device.poll_read(&mut self.read_buf) {
                Poll::Pending => {
                    proof {
                        assert(packets + Seq::<Seq<u8>>::empty() =~= packets);
                    }
                    stop = Some(IngressStop::Pending);
                },
                Poll::Ready(Err(e)) => {
                    proof {
                        assert(packets + Seq::<Seq<u8>>::empty() =~= packets);
                    }
                    stop = Some(IngressStop::Failed(e));
                },
                Poll::Ready(Ok(None)) => {
                    proof {
                        assert(packets + Seq::<Seq<u8>>::empty() =~= packets);
                    }
                    stop = Some(IngressStop::Ended);
                },
                Poll::Ready(Ok(Some(packet))) => {
                    let ghost bytes = packet@;
                    self.route_packet(packet);
                    proof {
                        let result = choose|result: Result<Option<Seq<u8>>, Error>|
                            before.wrapped(bytes, result) && self@ == #[trigger] before.routed_packet(bytes, result);
                        let sofar = start.routed_all(packets, results);
                        assert(sofar.wrapped(bytes, result));
                        assert(self@ == (TunnelState { device: None, ..sofar.routed_packet(bytes, result) }));
                        assert(packets.push(bytes).drop_last() =~= packets);
                        assert(results.push(result).drop_last() =~= results);
                        assert(packets.push(bytes) + ingress_packets(d0.io.unread.skip(taken + 1), mtu) =~= packets + (
                        seq![bytes] + ingress_packets(d0.io.unread.skip(taken + 1), mtu)));
                        packets = packets.push(bytes);
                        results = results.push(result);
                        taken = taken + 1;
                    }
                },
            }
        }
        self.device = Some(device);
        proof {
            assert(d0.io.written + Seq::<(IpVersion, Seq<u8>)>::empty() =~= d0.io.written);
            assert(start.ingress_of(ingress_packets(d0.io.unread, mtu), Seq::empty(), results, self@));
        }
        match stop {
            Some(why) => why,
            None => IngressStop::Pending,
        }
    }

    /// Reads packets from the device and routes them, then takes up what
    /// has come up, until there is an event for the application or
    /// nothing is left to do.
    ///
    /// Without a device, reading is suspended until one is attached. A
    /// device that has come to its end or failed is detached; a failure
    /// is the result.
    ///
    /// Reading, and detaching the device, leave the role as it is: no
    /// event that waits there is lost. Where reading fails the role is
    /// not asked. Else it is asked for an event time after time, as
    /// [`Tunnel::poll_next_event_common`] says, starting from the state
    /// that it was in.
    pub fn poll_next_event(&mut self, signals: &mut Signals) -> (r: Poll<Result<Event, Error>>)
        requires
            old(self).wf(),
        ensures
            final(self).wf(),
            final(self).limiter() == old(self).limiter(),
            old(self)@.device is None ==> after_reading(
                old(self)@,
                old(self)@,
                old(signals)@,
                final(self)@,
                final(signals)@,
                r,
            ),
            old(self)@.device is Some ==> exists|results: Seq<Result<Option<Seq<u8>>, Error>>, read: TunnelState| #[trigger]
                old(self)@.ingress_of(
                    ingress_packets(old(self)@.device->0.io.unread, old(self)@.device->0.mtu as int),
                    Seq::empty(),
                    results,
                    read,
                ) && after_reading(old(self)@, read, old(signals)@, final(self)@, final(signals)@, r),
            final(self)@.public_key == old(self)@.public_key,
            match old(self)@.device {
                None => final(self)@.device is None && final(self)@.awaiting_device,
                Some(d) => match ingress_stop(d.io.unread, d.mtu as int).1 {
                    IngressStop::Pending => (final(self)@.device matches Some(now) && after_ingress(d, now))
                        && final(self)@.awaiting_device == old(self)@.awaiting_device,
                    IngressStop::Ended => final(self)@.device is None && final(self)@.awaiting_device,
                    IngressStop::Failed(e) => (r matches Poll::Ready(Err(f)) && f == Error::Io(e)) && final(self)@.device is None
                        && final(self)@.awaiting_device == old(self)@.awaiting_device && final(signals).pending()
                        == old(signals).pending(),
                },
            },
            r is Pending ==> final(signals).pending() == 0,
            final(signals).pending() <= old(signals).pending(),
            routes_within(final(self)@.routes, old(self)@.routes),
            old(self)@.actions.is_prefix_of(final(self)@.actions),
            old(self)@.reading_fails() ==> final(self).role() == old(self).role(),
            !old(self)@.reading_fails() ==> exists|asks: Seq<&mut R>|
                #[trigger] asked_until(asks, poll_of(r)) && mut_ref_current(asks[0]) == old(self).role()
                    && mut_ref_future(asks.last()) == final(self).role() && forall|i: int|
                    0 <= i < asks.len() - 1 ==> mut_ref_future(#[trigger] asks[i]) == mut_ref_current(asks[i + 1]),
    {
        let ghost mut read = self@;
        let ghost mut results: Seq<Result<Option<Seq<u8>>, Error>> = Seq::empty();
        if self.device.is_some() {
            let stop = self.poll_ingress();
            proof {
                read = self@;
                results = choose|results: Seq<Result<Option<Seq<u8>>, Error>>| #[trigger]
                    old(self)@.ingress_of(
                        ingress_packets(old(self)@.device->0.io.unread, old(self)@.device->0.mtu as int),
                        Seq::empty(),
                        results,
                        read,
                    );
            }
            match stop {
                IngressStop::Failed(e) => {
                    self.clear_device();
                    let r = Poll::Ready(Err(Error::Io(e)));
                    assert(after_reading(old(self)@, read, old(signals)@, self@, signals@, r));
                    return r;
                },
                IngressStop::Ended => {
                    self.clear_device();
                    self.awaiting_device = true;
                },
                IngressStop::Pending => {},
            }
        } else {
            self.awaiting_device = true;
        }
        let polled = self.poll_next_event_common(signals);
        let r = match polled {
            Poll::Ready(event) => Poll::Ready(Ok(event)),
            Poll::Pending => Poll::Pending,
        };
        assert(poll_of(r) == polled);
        assert(after_reading(old(self)@, read, old(signals)@, self@, signals@, r));
        r
    }

    /// Writes a packet to the device. Without a device the packet is
    /// lost.
    pub fn write_to_device(&mut self, packet: Packet)
        requires
            old(self).wf(),
        ensures
            final(self).role() == old(self).role(),
            final(self).limiter() == old(self).limiter(),
            final(self).wf(),
            final(self)@ == old(self)@.write_device(packet@),
    {
        match &mut self.device {
            Some(d) => {
                let _ = d.io.write(packet);
            },
            None => {},
        }
    }

    /// Acts on what peer `id` made of a datagram: see
    /// [`TunnelState::after_decapsulate`].
    pub fn on_decapsulated(&mut self, id: ConnId, channel: ChannelId, result: Result<Option<WriteTo>, Error>)
        requires
            old(self).wf(),
        ensures
            final(self).role() == old(self).role(),
            final(self).limiter() == old(self).limiter(),
            final(self).wf(),
            final(self)@ == old(self)@.after_decapsulate(id, channel, write_view(result)),
    {
        match result {
            Ok(None) => {},
            Ok(Some(WriteTo::Network(packets))) => {
                let mut packets = packets;
                let ghost all = bytes_of(packets@);
                let ghost mut sent: int = 0;
                proof {
                    assert(transmits(id, channel, all.take(0)) =~= Seq::<ActionView>::empty());
                    assert(self@.actions + Seq::<ActionView>::empty() =~= self@.actions);
                    assert(all.skip(0) =~= all);
                }
                loop
                    invariant
                        self.role() == old(self).role(),
                        self.limiter() == old(self).limiter(),
                        self.wf(),
                        0 <= sent <= all.len(),
                        bytes_of(packets@) == all.skip(sent),
                        self@ == (TunnelState {
                            actions: old(self)@.actions + transmits(id, channel, all.take(sent)),
                            ..old(self)@
                        }),
                    ensures
                        packets@.len() == 0,
                    decreases packets@.len(),
                {
                    let ghost before = self@;
                    let ghost rest = packets@;
                    let Some(bytes) = packets.pop_front() else {
                        break ;
                    };
                    self.actions.push_back(
                        Action::Transmit { conn_id: id, channel, bytes },
                    );
                    proof {
                        let next = ActionView::Transmit { conn_id: id, channel, bytes: bytes@ };
                        assert(actions_view(self.actions@) =~= before.actions.push(next));
                        assert(bytes_of(rest).len() == rest.len());
                        assert(all.skip(sent).len() == all.len() - sent);
                        assert(bytes_of(rest)[0] == bytes@);
                        assert(all.skip(sent)[0] == all[sent]);
                        assert(all[sent] == bytes@);
                        assert(all.take(sent + 1) =~= all.take(sent).push(bytes@));
                        assert(transmits(id, channel, all.take(sent + 1)) =~= transmits(
                            id,
                            channel,
                            all.take(sent),
                        ).push(next));
                        assert(old(self)@.actions + transmits(id, channel, all.take(sent + 1)) =~= (old(self)@.actions
                            + transmits(id, channel, all.take(sent))).push(next));
                        assert(bytes_of(packets@) =~= all.skip(sent + 1)) by {
                            assert(packets@ == rest.drop_first());
                            assert(bytes_of(rest.drop_first()) =~= bytes_of(rest).drop_first());
                            assert(all.skip(sent).drop_first() =~= all.skip(sent + 1));
                        }
                        sent = sent + 1;
                    }
                }
                proof {
                    assert(bytes_of(packets@).len() == 0);
                    assert(all.skip(sent).len() == all.len() - sent);
                    assert(all.take(sent) =~= all);
                }
            },
            Ok(Some(WriteTo::Resource(packet))) => {
                self.write_to_device(packet);
            },
            Ok(Some(WriteTo::Resolve(pending))) => {
                let ghost added = ActionView::Resolve {
                    conn_id: id,
                    host: pending.host@,
                    addr: pending.addr,
                    packet: pending.packet@,
                };
                self.actions.push_back(Action::Resolve { conn_id: id, pending });
                assert(actions_view(self.actions@) =~= actions_view(old(self).actions@).push(added));
            },
            Err(e) => {
                self.actions.push_back(Action::ReportError(e));
                assert(actions_view(self.actions@) =~= actions_view(old(self).actions@).push(
                    ActionView::ReportError(e),
                ));
                if e.is_fatal_connection_error() {
                    self.peers_to_stop.push_back(id);
                }
            },
        }
    }

    /// Takes a datagram that came over the channel of peer `id`, and
    /// acts on what the peer makes of it: see
    /// [`TunnelState::after_decapsulate`]. A datagram of a peer that is
    /// not registered is dropped.
    pub fn handle_peer_packet(&mut self, id: ConnId, src: &[u8])
        requires
            old(self).wf(),
            src@.len() <= MAX_UDP_SIZE,
        ensures
            final(self).role() == old(self).role(),
            final(self).limiter() == old(self).limiter(),
            final(self).wf(),
            final(self)@.public_key == old(self)@.public_key,
            final(self)@.routes == old(self)@.routes,
            final(self)@.channels == old(self)@.channels,
            final(self)@.connections == old(self)@.connections,
            final(self)@.awaiting_device == old(self)@.awaiting_device,
            final(self)@.peers.len() == old(self)@.peers.len(),
            forall|i: int|
                0 <= i < old(self)@.peers.len() && old(self)@.peers[i].conn_id != id ==> #[trigger] final(self)@.peers[i]
                    == old(self)@.peers[i],
            !old(self)@.has_peer(id) ==> final(self)@ == old(self)@,
            old(self)@.has_peer(id) ==> exists|
                reply: crate::noise::SessionReply,
                buf: Seq<u8>,
                made: Result<Option<WriteTo>, Error>,
                after: PeerState,
            |
                #[trigger] crate::peer::explains(
                    old(self)@.peers[old(self)@.index_of(id)],
                    reply,
                    buf,
                    made,
                    after,
                ) && final(self)@ == (TunnelState {
                    peers: old(self)@.peers.update(old(self)@.index_of(id), after),
                    ..old(self)@
                }).after_decapsulate(id, old(self)@.channels[old(self)@.index_of(id)], write_view(made)),
            old(self)@.to_stop.is_prefix_of(final(self)@.to_stop),
            old(self)@.actions.is_prefix_of(final(self)@.actions),
    {
        let Some(index) = self.peer_index(id) else {
            return ;
        };
        proof {
            old(self).lemma_wf();
            let w = old(self)@.index_of(id);
            if w < index {
                assert(old(self)@.peers[w].conn_id != old(self)@.peers[index as int].conn_id);
            } else if index < w {
                assert(old(self)@.peers[index as int].conn_id != old(self)@.peers[w].conn_id);
            }
        }
        let peer = &mut self.peers[index];
        let channel = peer.channel;
        let result = peer.inner.decapsulate(src, &mut self.write_buf);
        let ghost made = result;
        let ghost state = old(self).peers@[index as int].inner@;
        let ghost after = self.peers@[index as int].inner@;
        let ghost (reply, buf) = choose|reply: crate::noise::SessionReply, buf: Seq<u8>|
            reply.fits(buf.len()) && buf.len() == old(self).write_buf.len() && #[trigger] crate::peer::explains(
                state,
                reply,
                buf,
                result,
                after,
            );
        proof {
            assert(old(self)@.channels[index as int] == old(self).peers@[index as int].channel);
            assert(after.conn_id == id) by {
                assert(old(self)@.peers[index as int] == state);
                crate::peer::lemma_explains_keeps_id(state, reply, buf, result, after);
            }
            assert(peers_view(self.peers@) =~= old(self)@.peers.update(index as int, after));
            assert(channels_view(self.peers@) =~= old(self)@.channels);
            assert forall|p: IpPrefix| #[trigger]
                table_entries(self.peers_by_ip).contains_key(p) implies self@.has_peer(
                table_entries(self.peers_by_ip)[p],
            ) by {
                let v = table_entries(self.peers_by_ip)[p];
                assert(old(self)@.has_peer(v));
                let k = choose|k: int|
                    0 <= k < old(self)@.peers.len() && (#[trigger] old(self)@.peers[k]).conn_id == v;
                assert(self@.peers[k].conn_id == v);
            }
            assert forall|x: int, y: int| 0 <= x < y < self.peers@.len() implies (#[trigger] self.peers@[x]).inner@.conn_id
                != (#[trigger] self.peers@[y]).inner@.conn_id by {
                assert(self@.peers[x].conn_id == old(self)@.peers[x].conn_id);
                assert(self@.peers[y].conn_id == old(self)@.peers[y].conn_id);
                assert(old(self).peers@[x].inner@.conn_id != old(self).peers@[y].inner@.conn_id);
            }
        }
        let ghost before = self@;
        self.on_decapsulated(id, channel, result);
        proof {
            assert(before.actions.is_prefix_of(self@.actions));
            assert(before.to_stop.is_prefix_of(self@.to_stop));
            let at = old(self)@.index_of(id);
            assert(at == index);
            assert(crate::peer::explains(old(self)@.peers[at], reply, buf, made, after));
            assert(self@ == (TunnelState { peers: old(self)@.peers.update(at, after), ..old(self)@ }).after_decapsulate(
                id,
                old(self)@.channels[at],
                write_view(made),
            ));
        }
    }

    /// Takes back a packet of peer `id` that waited for a name to be
    /// resolved, with the addresses that resolving gave, `None` if it
    /// failed. The packet is routed as [`PeerState::route`] says and
    /// written to the device; an error is reported. A packet of a peer
    /// that is no longer registered is dropped.
    pub fn on_resolved(&mut self, id: ConnId, pending: PendingPacket, addresses: Option<Vec<IpAddress>>)
        requires
            old(self).wf(),
        ensures
            final(self).role() == old(self).role(),
            final(self).limiter() == old(self).limiter(),
            final(self).wf(),
            match old(self)@.has_peer(id) {
                false => final(self)@ == old(self)@,
                true => {
                    let index = old(self)@.index_of(id);
                    let routed = old(self)@.peers[index].route(
                        pending.addr,
                        pending.packet@,
                        match addresses {
                            Some(a) => Some(a@),
                            None => None,
                        },
                    );
                    final(self)@ == (TunnelState {
                        peers: old(self)@.peers.update(index, routed.1),
                        ..old(self)@
                    }).after_decapsulate(
                        id,
                        old(self)@.channels[index],
                        match routed.0 {
                            Ok(Some(p)) => Ok(Some(WriteToView::Resource(p))),
                            Ok(None) => Ok(None),
                            Err(e) => Err(e),
                        },
                    )
                },
            },
    {
        let Some(index) = self.peer_index(id) else {
            return ;
        };
        proof {
            old(self).lemma_wf();
            let w = old(self)@.index_of(id);
            if w < index {
                assert(old(self)@.peers[w].conn_id != old(self)@.peers[index as int].conn_id);
            } else if index < w {
                assert(old(self)@.peers[index as int].conn_id != old(self)@.peers[w].conn_id);
            }
        }
        let PendingPacket { host: _, addr, packet } = pending;
        let peer = &mut self.peers[index];
        let channel = peer.channel;
        let ghost state = peer.inner@;
        let routed = match &addresses {
            Some(a) => make_packet_for_resource(&mut peer.inner, addr, packet, Some(a)),
            None => make_packet_for_resource(&mut peer.inner, addr, packet, None),
        };
        proof {
            let after = self.peers@[index as int].inner@;
            assert(old(self)@.peers[index as int] == state);
            assert(after.conn_id == id);
            assert(peers_view(self.peers@) =~= old(self)@.peers.update(index as int, after));
            assert(channels_view(self.peers@) =~= old(self)@.channels);
            assert forall|p: IpPrefix| #[trigger]
                table_entries(self.peers_by_ip).contains_key(p) implies self@.has_peer(
                table_entries(self.peers_by_ip)[p],
            ) by {
                let v = table_entries(self.peers_by_ip)[p];
                assert(old(self)@.has_peer(v));
                let k = choose|k: int|
                    0 <= k < old(self)@.peers.len() && (#[trigger] old(self)@.peers[k]).conn_id == v;
                assert(self@.peers[k].conn_id == v);
            }
            assert forall|x: int, y: int| 0 <= x < y < self.peers@.len() implies (#[trigger] self.peers@[x]).inner@.conn_id
                != (#[trigger] self.peers@[y]).inner@.conn_id by {
                assert(self@.peers[x].conn_id == old(self)@.peers[x].conn_id);
                assert(self@.peers[y].conn_id == old(self)@.peers[y].conn_id);
                assert(old(self).peers@[x].inner@.conn_id != old(self).peers@[y].inner@.conn_id);
            }
        }
        let result = match routed {
            Ok(Some(p)) => Ok(Some(WriteTo::Resource(p))),
            Ok(None) => Ok(None),
            Err(e) => Err(e),
        };
        self.on_decapsulated(id, channel, result);
    }
}

impl<R: InitiatorState> Tunnel<R> {
    /// Reads packets from the device until reading stops: see
    /// [`ingress_stop`] and [`TunnelState::ingress_of`]. The role looks
    /// at each packet first. What it answers itself is written back to
    /// the device; what it takes is done with. Any other packet is
    /// routed, and the role is told where a packet wanted to go that no
    /// peer serves. The result is why reading stopped.
    ///
    /// The role is called packet by packet, in the order in which the
    /// packets were read: it looks at the packet, and is then told of
    /// its destination if the packet was left to be routed and no peer
    /// serves it. Each call finds the state that the call before left,
    /// the first the state that the role was in. Nothing else is done to
    /// the role: where no packet is read, it is as it was.
    pub fn poll_device(&mut self) -> (r: Poll<Result<Option<Event>, Error>>)
        requires
            old(self).wf(),
            old(self)@.device is Some,
        ensures
            final(self).wf(),
            final(self).limiter() == old(self).limiter(),
            ingress_result(r, ingress_stop(old(self)@.device->0.io.unread, old(self)@.device->0.mtu as int).1),
            exists|
                verdicts: Seq<DnsVerdict>,
                results: Seq<Result<Option<Seq<u8>>, Error>>,
                looks: Seq<&mut R>,
                tells: Seq<&mut R>,
            |
                #[trigger] old(self)@.ingress_of(
                    unclaimed(old(self)@.reads(), verdicts),
                    responses(verdicts),
                    results,
                    final(self)@,
                ) && #[trigger] role_read(old(self)@, old(self)@.reads(), verdicts, looks, tells) && (looks.len() == 0
                    ==> final(self).role() == old(self).role()) && (looks.len() > 0 ==> mut_ref_current(looks[0])
                    == old(self).role() && final(self).role() == if old(self)@.unserved(
                    old(self)@.reads().last(),
                    verdicts.last(),
                ) {
                    mut_ref_future(tells.last())
                } else {
                    mut_ref_future(looks.last())
                }) && (forall|i: int|
                    0 <= i < looks.len() && old(self)@.unserved(old(self)@.reads()[i], verdicts[i]) ==> mut_ref_current(
                        #[trigger] tells[i],
                    ) == mut_ref_future(looks[i])) && (forall|i: int|
                    0 <= i < looks.len() - 1 ==> mut_ref_current(looks[i + 1]) == if old(self)@.unserved(
                        old(self)@.reads()[i],
                        verdicts[i],
                    ) {
                        mut_ref_future(tells[i])
                    } else {
                        mut_ref_future(#[trigger] looks[i])
                    }),
            final(self)@.device is Some,
            after_ingress(old(self)@.device->0, final(self)@.device->0),
            final(self)@.public_key == old(self)@.public_key,
            final(self)@.routes == old(self)@.routes,
            final(self)@.peers == old(self)@.peers,
            final(self)@.channels == old(self)@.channels,
            final(self)@.connections == old(self)@.connections,
            final(self)@.awaiting_device == old(self)@.awaiting_device,
            old(self)@.to_stop.is_prefix_of(final(self)@.to_stop),
            old(self)@.actions.is_prefix_of(final(self)@.actions),
    {
        let ghost start = self@;
        let ghost d0 = self@.device->0;
        let Some(mut device) = self.device.take() else {
            return Poll::Pending;
        };
        let ghost mtu = d0.mtu as int;
        let ghost mut taken: int = 0;
        let ghost mut packets: Seq<Seq<u8>> = Seq::empty();
        let ghost mut verdicts: Seq<DnsVerdict> = Seq::empty();
        let ghost mut results: Seq<Result<Option<Seq<u8>>, Error>> = Seq::empty();
        let mut stop: Option<IngressStop> = None;
        proof {
            assert(d0.io.unread.skip(0) =~= d0.io.unread);
            assert(packets + ingress_packets(d0.io.unread, mtu) =~= ingress_packets(d0.io.unread, mtu));
            assert(d0.io.written + responses(verdicts) =~= d0.io.written);
            assert(role_read(start, packets, verdicts, Seq::<&mut R>::empty(), Seq::<&mut R>::empty()));
        }
        while stop.is_none()
            invariant
                self.limiter() == old(self).limiter(),
                exists|looks: Seq<&mut R>, tells: Seq<&mut R>|
                    #[trigger] role_read(start, packets, verdicts, looks, tells) && (looks.len() == 0 ==> self.role()
                        == old(self).role()) && (looks.len() > 0 ==> mut_ref_current(looks[0]) == old(self).role()
                        && self.role() == if start.unserved(packets.last(), verdicts.last()) {
                        mut_ref_future(tells.last())
                    } else {
                        mut_ref_future(looks.last())
                    }) && (forall|i: int|
                        0 <= i < looks.len() && start.unserved(packets[i], verdicts[i]) ==> mut_ref_current(
                            #[trigger] tells[i],
                        ) == mut_ref_future(looks[i])) && (forall|i: int|
                        0 <= i < looks.len() - 1 ==> mut_ref_current(looks[i + 1]) == if start.unserved(
                            packets[i],
                            verdicts[i],
                        ) {
                            mut_ref_future(tells[i])
                        } else {
                            mut_ref_future(#[trigger] looks[i])
                        }),
                self.wf(),
                start == old(self)@,
                start.device == Some(d0),
                device.config.mtu() == d0.mtu,
                device.config.mtu() + DATA_OVERHEAD <= MAX_UDP_SIZE,
                device.io@.written == d0.io.written + responses(verdicts),
                0 <= taken <= d0.io.unread.len(),
                ingress_stop(d0.io.unread, mtu).1 == ingress_stop(d0.io.unread.skip(taken), mtu).1,
                mtu == d0.mtu as int,
                verdicts.len() == packets.len(),
                match stop {
                    None => device.io@.unread == d0.io.unread.skip(taken) && ingress_stop(d0.io.unread, mtu).0
                        == taken + ingress_stop(d0.io.unread.skip(taken), mtu).0 && ingress_packets(
                        d0.io.unread,
                        mtu,
                    ) == packets + ingress_packets(d0.io.unread.skip(taken), mtu),
                    Some(why) => why == ingress_stop(d0.io.unread, mtu).1 && device.io@.unread
                        == d0.io.unread.skip(ingress_stop(d0.io.unread, mtu).0 as int) && ingress_packets(
                        d0.io.unread,
                        mtu,
                    ) == packets,
                },
                start.all_wrapped(unclaimed(packets, verdicts), results),
                self@ == (TunnelState { device: None, ..start.routed_all(unclaimed(packets, verdicts), results) }),
                self@.public_key == old(self)@.public_key,
                self@.routes == old(self)@.routes,
                self@.peers == old(self)@.peers,
                self@.channels == old(self)@.channels,
                self@.connections == old(self)@.connections,
                self@.awaiting_device == old(self)@.awaiting_device,
                old(self)@.to_stop.is_prefix_of(self@.to_stop),
                old(self)@.actions.is_prefix_of(self@.actions),
            decreases
                    if stop is None {
                        d0.io.unread.len() - taken + 1
                    } else {
                        0
                    },
        {
            let ghost rest = d0.io.unread.skip(taken);
            let ghost before = self@;
            let ghost asked = self.role();
            proof {
                if rest.len() > 0 {
                    assert(rest[0] == d0.io.unread[taken]);
                    assert(rest.drop_first() =~= d0.io.unread.skip(taken + 1));
                }
            }
            match device.poll_read(&mut self.read_buf) {
                Poll::Pending => {
                    proof {
                        assert(packets + Seq::<Seq<u8>>::empty() =~= packets);
                    }
                    stop = Some(IngressStop::Pending);
                },
                Poll::Ready(Err(e)) => {
                    proof {
                        assert(packets + Seq::<Seq<u8>>::empty() =~= packets);
                    }
                    stop = Some(IngressStop::Failed(e));
                },
                Poll::Ready(Ok(None)) => {
                    proof {
                        assert(packets + Seq::<Seq<u8>>::empty() =~= packets);
                    }
                    stop = Some(IngressStop::Ended);
                },
                Poll::Ready(Ok(Some(packet))) => {
                    let ghost bytes = packet@;
                    let ghost routed = unclaimed(packets, verdicts);
                    let verdict = self.role_state.handle_dns(&packet);
                    let ghost made = verdict;
                    let ghost mid = self.role();
                    proof {
                        let look = choose|look: &mut R|
                            mut_ref_current(look) == asked && mut_ref_future(look) == mid && #[trigger] call_ensures(
                                R::handle_dns,
                                (look, &packet),
                                verdict,
                            );
                        assert(looked(look, bytes, made));
                        assert(packets.push(bytes).drop_last() =~= packets);
                        assert(verdicts.push(made).drop_last() =~= verdicts);
                        assert(packets.push(bytes) + ingress_packets(d0.io.unread.skip(taken + 1), mtu) =~= packets + (
                        seq![bytes] + ingress_packets(d0.io.unread.skip(taken + 1), mtu)));
                    }
                    match verdict {
                        DnsVerdict::Respond(response) => {
                            let _ = device.io.write(response);
                            proof {
                                assert(d0.io.written + responses(verdicts.push(made)) =~= (d0.io.written + responses(
                                    verdicts,
                                )).push(response@));
                            }
                        },
                        DnsVerdict::Claimed => {},
                        DnsVerdict::NotDns => {
                            let dest = packet.destination();
                            let served = self.route_packet(packet);
                            proof {
                                let result = choose|result: Result<Option<Seq<u8>>, Error>|
                                    before.wrapped(bytes, result) && self@ == #[trigger] before.routed_packet(
                                        bytes,
                                        result,
                                    );
                                let sofar = start.routed_all(routed, results);
                                assert(sofar.wrapped(bytes, result));
                                assert(self@ == (TunnelState { device: None, ..sofar.routed_packet(bytes, result) }));
                                assert(routed.push(bytes).drop_last() =~= routed);
                                assert(results.push(result).drop_last() =~= results);
                                results = results.push(result);
                            }
                            if !served {
                                self.role_state.on_connection_intent(dest);
                                proof {
                                    let tell = choose|tell: &mut R|
                                        mut_ref_current(tell) == mid && mut_ref_future(tell) == self.role()
                                            && #[trigger] call_ensures(R::on_connection_intent, (tell, dest), ());
                                    assert(told(tell, dest));
                                }
                            }
                        },
                    }
                    proof {
                        let (looked_at, told_of) = choose|looks: Seq<&mut R>, tells: Seq<&mut R>|
                            #[trigger] role_read(start, packets, verdicts, looks, tells) && (looks.len() == 0 ==> asked
                                == old(self).role()) && (looks.len() > 0 ==> mut_ref_current(looks[0]) == old(
                                self,
                            ).role() && asked == if start.unserved(packets.last(), verdicts.last()) {
                                mut_ref_future(tells.last())
                            } else {
                                mut_ref_future(looks.last())
                            }) && (forall|i: int|
                                0 <= i < looks.len() && start.unserved(packets[i], verdicts[i]) ==> mut_ref_current(
                                    #[trigger] tells[i],
                                ) == mut_ref_future(looks[i])) && (forall|i: int|
                                0 <= i < looks.len() - 1 ==> mut_ref_current(looks[i + 1]) == if start.unserved(
                                    packets[i],
                                    verdicts[i],
                                ) {
                                    mut_ref_future(tells[i])
                                } else {
                                    mut_ref_future(#[trigger] looks[i])
                                });
                        let look = choose|look: &mut R|
                            mut_ref_current(look) == asked && mut_ref_future(look) == mid && #[trigger] looked(
                                look,
                                bytes,
                                made,
                            );
                        let target = crate::ip_packet::destination_of(bytes)->0;
                        let tell = if start.unserved(bytes, made) {
                            choose|tell: &mut R|
                                mut_ref_current(tell) == mid && mut_ref_future(tell) == self.role() && #[trigger] told(
                                    tell,
                                    target,
                                )
                        } else {
                            look
                        };
                        let n = packets.len() as int;
                        let looks = looked_at.push(look);
                        let tells = told_of.push(tell);
                        let more = packets.push(bytes);
                        let made_of = verdicts.push(made);
                        assert(looks[n] == look && tells[n] == tell && more[n] == bytes && made_of[n] == made);
                        assert forall|i: int| 0 <= i < more.len() implies looked(
                            #[trigger] looks[i],
                            more[i],
                            made_of[i],
                        ) by {
                            if i < n {
                                assert(looks[i] == looked_at[i] && more[i] == packets[i] && made_of[i] == verdicts[i]);
                            }
                        }
                        assert forall|i: int| 0 <= i < more.len() && start.unserved(more[i], made_of[i]) implies told(
                            #[trigger] tells[i],
                            crate::ip_packet::destination_of(more[i])->0,
                        ) by {
                            if i < n {
                                assert(tells[i] == told_of[i] && more[i] == packets[i] && made_of[i] == verdicts[i]);
                            }
                        }
                        assert(role_read(start, more, made_of, looks, tells));
                        assert forall|i: int|
                            0 <= i < looks.len() && start.unserved(more[i], made_of[i]) implies mut_ref_current(
                            #[trigger] tells[i],
                        ) == mut_ref_future(looks[i]) by {
                            if i < n {
                                assert(tells[i] == told_of[i] && looks[i] == looked_at[i] && more[i] == packets[i]
                                    && made_of[i] == verdicts[i]);
                            }
                        }
                        assert forall|i: int| 0 <= i < looks.len() - 1 implies mut_ref_current(looks[i + 1])
                            == if start.unserved(more[i], made_of[i]) {
                            mut_ref_future(tells[i])
                        } else {
                            mut_ref_future(#[trigger] looks[i])
                        } by {
                            assert(tells[i] == told_of[i] && looks[i] == looked_at[i] && more[i] == packets[i]
                                && made_of[i] == verdicts[i]);
                            if i + 1 < n {
                                assert(looks[i + 1] == looked_at[i + 1]);
                            }
                        }
                        assert(mut_ref_current(looks[0]) == old(self).role());
                        assert(self.role() == if start.unserved(more.last(), made_of.last()) {
                            mut_ref_future(tells.last())
                        } else {
                            mut_ref_future(looks.last())
                        });
                        packets = more;
                        verdicts = made_of;
                        taken = taken + 1;
                    }
                },
            }
        }
        self.device = Some(device);
        proof {
            assert(start.reads() == packets);
            assert(start.ingress_of(unclaimed(start.reads(), verdicts), responses(verdicts), results, self@));
        }
        match stop {
            Some(IngressStop::Ended) => Poll::Ready(Ok(None)),
            Some(IngressStop::Failed(e)) => Poll::Ready(Err(Error::Io(e))),
            _ => Poll::Pending,
        }
    }

    /// Reads packets from the device and routes them, then takes up what
    /// has come up, until there is an event for the application or
    /// nothing is left to do.
    ///
    /// Without a device, reading is suspended until one is attached. A
    /// device that has come to its end or failed is detached; a failure
    /// is the result.
    ///
    /// While packets are read the role is called as [`Tunnel::poll_device`]
    /// says. Detaching the device leaves the role as it is: no event that
    /// waits there is lost. Where reading fails the role is not asked.
    /// Else it is asked for an event time after time, as
    /// [`Tunnel::poll_next_event_common`] says, starting from the state
    /// that reading left.
    pub fn next_event(&mut self, signals: &mut Signals) -> (r: Poll<Result<Event, Error>>)
        requires
            old(self).wf(),
        ensures
            final(self).wf(),
            final(self).limiter() == old(self).limiter(),
            old(self)@.device is None ==> after_reading(
                old(self)@,
                old(self)@,
                old(signals)@,
                final(self)@,
                final(signals)@,
                r,
            ) && exists|asks: Seq<&mut R>|
                #[trigger] asked_until(asks, poll_of(r)) && mut_ref_current(asks[0]) == old(self).role()
                    && mut_ref_future(asks.last()) == final(self).role() && forall|i: int|
                    0 <= i < asks.len() - 1 ==> mut_ref_future(#[trigger] asks[i]) == mut_ref_current(asks[i + 1]),
            old(self)@.device is Some ==> exists|
                verdicts: Seq<DnsVerdict>,
                results: Seq<Result<Option<Seq<u8>>, Error>>,
                read: TunnelState,
                looks: Seq<&mut R>,
                tells: Seq<&mut R>,
            |
                #[trigger] old(self)@.ingress_of(
                    unclaimed(old(self)@.reads(), verdicts),
                    responses(verdicts),
                    results,
                    read,
                ) && after_reading(old(self)@, read, old(signals)@, final(self)@, final(signals)@, r)
                    && #[trigger] role_read(old(self)@, old(self)@.reads(), verdicts, looks, tells) && (looks.len() > 0
                    ==> mut_ref_current(looks[0]) == old(self).role()) && (forall|i: int|
                    0 <= i < looks.len() && old(self)@.unserved(old(self)@.reads()[i], verdicts[i]) ==> mut_ref_current(
                        #[trigger] tells[i],
                    ) == mut_ref_future(looks[i])) && (forall|i: int|
                    0 <= i < looks.len() - 1 ==> mut_ref_current(looks[i + 1]) == if old(self)@.unserved(
                        old(self)@.reads()[i],
                        verdicts[i],
                    ) {
                        mut_ref_future(tells[i])
                    } else {
                        mut_ref_future(#[trigger] looks[i])
                    }) && if old(self)@.reading_fails() {
                    final(self).role() == if looks.len() == 0 {
                        old(self).role()
                    } else if old(self)@.unserved(old(self)@.reads().last(), verdicts.last()) {
                        mut_ref_future(tells.last())
                    } else {
                        mut_ref_future(looks.last())
                    }
                } else {
                    exists|asks: Seq<&mut R>|
                        #[trigger] asked_until(asks, poll_of(r)) && mut_ref_current(asks[0]) == (if looks.len() == 0 {
                            old(self).role()
                        } else if old(self)@.unserved(old(self)@.reads().last(), verdicts.last()) {
                            mut_ref_future(tells.last())
                        } else {
                            mut_ref_future(looks.last())
                        }) && mut_ref_future(asks.last()) == final(self).role() && forall|i: int|
                            0 <= i < asks.len() - 1 ==> mut_ref_future(#[trigger] asks[i]) == mut_ref_current(
                                asks[i + 1],
                            )
                },
            final(self)@.public_key == old(self)@.public_key,
            match old(self)@.device {
                None => final(self)@.device is None && final(self)@.awaiting_device,
                Some(d) => match ingress_stop(d.io.unread, d.mtu as int).1 {
                    IngressStop::Pending => (final(self)@.device matches Some(now) && after_ingress(d, now))
                        && final(self)@.awaiting_device == old(self)@.awaiting_device,
                    IngressStop::Ended => final(self)@.device is None && final(self)@.awaiting_device,
                    IngressStop::Failed(e) => (r matches Poll::Ready(Err(f)) && f == Error::Io(e)) && final(self)@.device is None
                        && final(self)@.awaiting_device == old(self)@.awaiting_device && final(signals).pending()
                        == old(signals).pending(),
                },
            },
            r is Pending ==> final(signals).pending() == 0,
            final(signals).pending() <= old(signals).pending(),
            routes_within(final(self)@.routes, old(self)@.routes),
            old(self)@.actions.is_prefix_of(final(self)@.actions),
    {
        let ghost mut read = self@;
        if self.device.is_some() {
            let stop = self.poll_device();
            proof {
                read = self@;
            }
            match stop {
                Poll::Ready(Ok(Some(event))) => {
                    return Poll::Ready(Ok(event));
                },
                Poll::Ready(Ok(None)) => {
                    self.clear_device();
                    self.awaiting_device = true;
                },
                Poll::Ready(Err(e)) => {
                    self.clear_device();
                    let r = Poll::Ready(Err(e));
                    assert(after_reading(old(self)@, read, old(signals)@, self@, signals@, r));
                    return r;
                },
                Poll::Pending => {},
            }
        } else {
            self.awaiting_device = true;
        }
        let polled = self.poll_next_event_common(signals);
        let r = match polled {
            Poll::Ready(event) => Poll::Ready(Ok(event)),
            Poll::Pending => Poll::Pending,
        };
        assert(poll_of(r) == polled);
        assert(after_reading(old(self)@, read, old(signals)@, self@, signals@, r));
        r
    }
}

} // verus!
