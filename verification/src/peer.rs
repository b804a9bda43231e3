//! One peer: its WireGuard session, the prefixes it may use, the
//! resources it was granted and the translations recorded for it.

use crate::device_channel::Packet;
use crate::error::Error;
use crate::ip::{IpAddress, IpPrefix};
use crate::ip_packet::{
    destination, destination_of, ip_version, source_of, with_checksums, with_destination, with_source,
    IpVersion, MutableIpPacket,
};
use crate::noise::{
    settle, tunn_decapsulate, tunn_encapsulate, tunn_new, tunn_queued, tunn_update_timers, SessionReply,
    COOKIE_REPLY_SIZE, DATA_OVERHEAD, HANDSHAKE_INIT_SIZE,
};
use crate::resource::{host_of, port_of, ExpiringResource, ResourceDescription, ResourceId};
use crate::resource_table::{
    expired_ids, find_by_id, find_by_ip, grants_wf, has_id, lemma_retained, lemma_retained_twice, unexpired,
    without_id, ResourceTable,
};
use crate::table::{is_longest_match, table_entries, table_insert, table_iter, table_longest_match, table_new};
use crate::time::{now, Timestamp};
use crate::translation::{without_targets, TranslationMap};
use crate::MAX_UDP_SIZE;
use boringtun::noise::rate_limiter::RateLimiter;
use boringtun::noise::Tunn;
use ip_network_table::IpNetworkTable;
use std::collections::VecDeque;
use std::sync::Arc;
use vstd::prelude::*;
use vstd::slice::slice_subrange;

verus! {

/// The identity of a connection: opaque, and stable while the peer lives.
pub type ConnId = u128;

/// What it takes to talk to a peer.
pub struct PeerConfig {
    pub persistent_keepalive: Option<u16>,
    pub public_key: [u8; 32],
    pub ips: Vec<IpPrefix>,
    pub preshared_key: [u8; 32],
}

/// A peer as the control plane announces it.
pub struct PeerInfo {
    pub persistent_keepalive: Option<u16>,
    pub public_key: [u8; 32],
    pub ipv4: u32,
    pub ipv6: u128,
    pub preshared_key: [u8; 32],
}

impl PeerConfig {
    /// Every prefix is a valid network.
    pub open spec fn wf(&self) -> bool {
        forall|i: int| 0 <= i < self.ips@.len() ==> (#[trigger] self.ips@[i]).wf()
    }
}

impl PeerConfig {
    /// The configuration of an announced peer: it may use its two
    /// addresses and nothing else.
    pub fn from(value: PeerInfo) -> (config: PeerConfig)
        ensures
            config.persistent_keepalive == value.persistent_keepalive,
            config.public_key == value.public_key,
            config.preshared_key == value.preshared_key,
            config.ips@ == seq![
                IpPrefix { addr: IpAddress::V4(value.ipv4), len: 32 },
                IpPrefix { addr: IpAddress::V6(value.ipv6), len: 128 },
            ],
            config.wf(),
    {
        let mut ips: Vec<IpPrefix> = Vec::new();
        ips.push(IpPrefix::host(IpAddress::V4(value.ipv4)));
        ips.push(IpPrefix::host(IpAddress::V6(value.ipv6)));
        PeerConfig {
            persistent_keepalive: value.persistent_keepalive,
            public_key: value.public_key,
            ips,
            preshared_key: value.preshared_key,
        }
    }
}

/// What a peer is, apart from the state of its session.
pub struct PeerState {
    pub conn_id: ConnId,
    /// The prefixes the peer may send from.
    pub allowed_ips: Set<IpPrefix>,
    /// The grants of the peer. A peer without a table of grants is a
    /// full-tunnel peer: all it sends goes to the device.
    pub resources: Option<Seq<ExpiringResource>>,
    /// Which resource an address was last resolved for.
    pub translations: Map<IpAddress, ResourceId>,
}

impl PeerState {
    /// Some allowed prefix covers `addr`.
    pub open spec fn allows(self, addr: IpAddress) -> bool {
        exists|p: IpPrefix| #[trigger] self.allowed_ips.contains(p) && p.covers(addr)
    }

    /// The peer has a table of grants and it is empty.
    pub open spec fn emptied(self) -> bool {
        self.resources matches Some(g) && g.len() == 0
    }

    /// The peer once every grant that has ended by `now` is dropped,
    /// together with the translations that point at its resource.
    pub open spec fn expire(self, now: Timestamp) -> PeerState {
        match self.resources {
            Some(g) => PeerState {
                resources: Some(unexpired(g, now)),
                translations: without_targets(self.translations, expired_ids(g, now)),
                ..self
            },
            None => self,
        }
    }

    /// The peer with one more grant, if it keeps grants at all.
    pub open spec fn grant(self, grant: ExpiringResource) -> PeerState {
        match self.resources {
            Some(g) => PeerState { resources: Some(without_id(g, grant.0.spec_id()).push(grant)), ..self },
            None => self,
        }
    }

    /// The peer with `addr` recorded as resolved for resource `id`.
    pub open spec fn translate(self, addr: IpAddress, id: ResourceId) -> PeerState {
        PeerState { translations: self.translations.insert(addr, id), ..self }
    }

    /// What the peer's session is handed for an outgoing packet. A packet
    /// that comes from an address resolved for a resource goes out as if
    /// it came from the address assigned to that resource, with its
    /// checksums renewed; any other goes out as it is. A translation
    /// that points at a network resource is an error.
    pub open spec fn outbound(self, packet: Seq<u8>) -> Result<Seq<u8>, Error> {
        match source_of(packet) {
            Some(source) => match self.translation(source) {
                Some(ResourceDescription::Dns(r)) => Ok(
                    with_checksums(
                        with_source(
                            packet,
                            if ip_version(packet) == Some(IpVersion::V4) {
                                IpAddress::V4(r.ipv4)
                            } else {
                                IpAddress::V6(r.ipv6)
                            },
                        ),
                    ),
                ),
                Some(ResourceDescription::Cidr(_)) => Err(Error::ControlProtocolError),
                None => Ok(packet),
            },
            None => Ok(packet),
        }
    }

    /// The destination of a packet and the resource granted to the peer
    /// that answers for it, if the peer keeps grants and one does.
    pub open spec fn packet_resource(self, packet: Seq<u8>) -> Option<(IpAddress, ResourceDescription)> {
        match (self.resources, destination_of(packet)) {
            (Some(g), Some(dst)) => match find_by_ip(g, dst) {
                Some(e) => Some((dst, e.0)),
                None => None,
            },
            _ => None,
        }
    }

    /// The name that has to be resolved before a packet decrypted from
    /// `addr` can be routed: the packet is for a resource reached by name
    /// and `addr` is allowed.
    pub open spec fn lookup(self, addr: IpAddress, packet: Seq<u8>) -> Option<Seq<char>> {
        if !self.allows(addr) {
            None
        } else {
            match self.packet_resource(packet) {
                Some((_, ResourceDescription::Dns(r))) => Some(host_of(r.address@)),
                _ => None,
            }
        }
    }

    /// The peer after a destination was worked out for `resource`: a
    /// destination resolved for a resource reached by name is recorded.
    pub open spec fn record(
        self,
        resource: ResourceDescription,
        target: Result<(IpAddress, Option<u16>), Error>,
    ) -> PeerState {
        match (resource, target) {
            (ResourceDescription::Dns(r), Ok((a, _))) => self.translate(a, r.id),
            _ => self,
        }
    }

    /// What becomes of a packet decrypted from `addr`, and of the peer.
    ///
    /// A packet from an address that is not allowed is dropped. A
    /// full-tunnel peer's packet is delivered as it is. Otherwise the
    /// packet's destination has to lie in a granted resource, or it is
    /// dropped. For a network resource the destination has to lie in the
    /// network, and the packet is delivered as it is. For a resource
    /// reached by name the destination becomes the first of the
    /// addresses `resolved` that is of `addr`'s family, which is recorded
    /// as a translation; the packet is delivered with that destination
    /// and its checksums renewed.
    pub open spec fn route(self, addr: IpAddress, packet: Seq<u8>, resolved: Option<Seq<IpAddress>>) -> (
        Result<Option<(IpVersion, Seq<u8>)>, Error>,
        PeerState,
    ) {
        if !self.allows(addr) {
            (Ok(None), self)
        } else if self.resources is None {
            (Ok(Some(framed(packet, addr))), self)
        } else {
            match self.packet_resource(packet) {
                None => (Ok(None), self),
                Some((dst, resource)) => {
                    let target = resource_target(resource, addr, dst, resolved);
                    match target {
                        Err(e) => (Err(e), self),
                        Ok((a, _)) => (
                            Ok(
                                Some(
                                    framed(
                                        if resource is Dns {
                                            rewritten(packet, a)
                                        } else {
                                            packet
                                        },
                                        addr,
                                    ),
                                ),
                            ),
                            self.record(resource, target),
                        ),
                    }
                },
            }
        }
    }

    /// The resource that `ip` was last resolved for, if the peer still
    /// holds a grant for it.
    pub open spec fn translation(self, ip: IpAddress) -> Option<ResourceDescription> {
        match self.resources {
            Some(g) => if self.translations.contains_key(ip) {
                match find_by_id(g, self.translations[ip]) {
                    Some(e) => Some(e.0),
                    None => None,
                }
            } else {
                None
            },
            None => None,
        }
    }
}

/// A peer may send from every address of each of its allowed prefixes.
pub proof fn lemma_allowed_prefix_allows(state: PeerState, prefix: IpPrefix, ip: IpAddress)
    requires
        state.allowed_ips.contains(prefix),
        prefix.covers(ip),
    ensures
        state.allows(ip),
{
}

/// Expiring twice at the same instant is expiring once: the second time
/// finds nothing to drop, among the grants or among the translations.
pub proof fn lemma_expire_idempotent(state: PeerState, now: Timestamp)
    ensures
        state.expire(now).expire(now) == state.expire(now),
{
    if let Some(g) = state.resources {
        let keep = |e: ExpiringResource| !e.1.at_or_before(now);
        let kept = unexpired(g, now);
        lemma_retained_twice(g, keep);
        lemma_retained(g, keep);
        assert(expired_ids(kept, now) =~= Set::<ResourceId>::empty());
        let once = without_targets(state.translations, expired_ids(g, now));
        assert(without_targets(once, expired_ids(kept, now)) =~= once);
    }
}

/// A peer that holds grants, all of them ended by `now`, is emptied by
/// expiring at `now`.
pub proof fn lemma_expire_empties(state: PeerState, now: Timestamp)
    requires
        state.resources matches Some(g) && g.len() > 0 && forall|i: int|
            0 <= i < g.len() ==> (#[trigger] g[i]).1.at_or_before(now),
    ensures
        state.expire(now).emptied(),
{
    let g = state.resources->0;
    let keep = |e: ExpiringResource| !e.1.at_or_before(now);
    lemma_retained(g, keep);
    let kept = unexpired(g, now);
    if kept.len() > 0 {
        assert(keep(kept[0]) && g.contains(kept[0]));
        let w = choose|w: int| 0 <= w < g.len() && g[w] == kept[0];
        assert(g[w].1.at_or_before(now));
    }
}

/// A full-tunnel peer is never emptied, whatever expires.
pub proof fn lemma_full_tunnel_never_emptied(state: PeerState, now: Timestamp)
    requires
        state.resources is None,
    ensures
        !state.emptied(),
        !state.expire(now).emptied(),
{
}

/// A recorded translation sticks: once `addr` is recorded for a resource
/// that the peer holds a grant for, `addr` translates to that resource,
/// until the grant or the record goes.
pub proof fn lemma_translation_sticks(state: PeerState, addr: IpAddress, id: ResourceId)
    requires
        state.resources matches Some(g) && grants_wf(g) && has_id(g, id),
    ensures
        state.translate(addr, id).translation(addr) matches Some(resource) && resource.spec_id() == id,
        forall|other: IpAddress|
            other != addr ==> state.translate(addr, id).translation(other) == state.translation(other),
{
}

/// Expiry purges exactly the translations that point at a resource
/// whose grant it drops: each of those goes, every other stays as it
/// was.
pub proof fn lemma_expire_purges_exactly(state: PeerState, now: Timestamp, addr: IpAddress)
    requires
        state.resources matches Some(g),
    ensures
        state.expire(now).translations.contains_key(addr) <==> state.translations.contains_key(addr)
            && !expired_ids(state.resources->0, now).contains(state.translations[addr]),
        state.expire(now).translations.contains_key(addr) ==> state.expire(now).translations[addr]
            == state.translations[addr],
{
}

/// The bytes that a peer delivers for a packet; the packet itself where
/// it delivers none.
pub open spec fn delivered_bytes(
    state: PeerState,
    addr: IpAddress,
    packet: Seq<u8>,
    resolved: Option<Seq<IpAddress>>,
) -> Seq<u8> {
    match state.route(addr, packet, resolved).0 {
        Ok(Some(delivered)) => delivered.1,
        _ => packet,
    }
}

/// What a peer delivers is the packet that was decrypted, but for the
/// destination and the checksums where a name was resolved: every other
/// header field and the payload are as they came.
pub proof fn lemma_delivery_keeps_the_rest(
    state: PeerState,
    addr: IpAddress,
    packet: Seq<u8>,
    resolved: Option<Seq<IpAddress>>,
)
    ensures
        delivered_bytes(state, addr, packet, resolved).len() == packet.len(),
        forall|i: int|
            0 <= i < packet.len() && !crate::ip_packet::in_destination(packet, i)
                && !crate::ip_packet::in_checksum(packet, i) ==> #[trigger] delivered_bytes(
                state,
                addr,
                packet,
                resolved,
            )[i] == packet[i],
{
    if ip_version(packet) is Some {
        if let Some((dst, resource)) = state.packet_resource(packet) {
            if let Ok((a, _)) = resource_target(resource, addr, dst, resolved) {
                crate::ip_packet::lemma_new_destination_keeps_the_rest(packet, a);
            }
        }
    }
}

/// A full-tunnel peer, and a peer whose grant for a network covers the
/// destination, deliver the packet that was decrypted byte for byte.
pub proof fn lemma_delivery_unchanged(
    state: PeerState,
    addr: IpAddress,
    packet: Seq<u8>,
    resolved: Option<Seq<IpAddress>>,
)
    requires
        state.allows(addr),
        state.resources is None || (state.packet_resource(packet) matches Some((dst, resource)) && resource is Cidr
            && addr.same_family(dst)),
    ensures
        state.route(addr, packet, resolved).0 == Ok::<Option<(IpVersion, Seq<u8>)>, Error>(
            Some(framed(packet, addr)),
        ),
        state.route(addr, packet, resolved).1 == state,
{
    if state.resources is Some {
        let (dst, resource) = state.packet_resource(packet)->0;
        let g = state.resources->0;
        let i = choose|i: int| crate::resource_table::is_best_match(g, dst, i);
        assert(g[i].0.match_len(dst) is Some);
    }
}

/// What a peer hands to its session is the packet that came from the
/// device, but for the source and the checksums where the source is an
/// address that a name was resolved to: every other header field and
/// the payload are as they came.
pub proof fn lemma_outbound_keeps_the_rest(state: PeerState, packet: Seq<u8>)
    requires
        ip_version(packet) is Some,
        state.outbound(packet) is Ok,
    ensures
        state.outbound(packet)->Ok_0.len() == packet.len(),
        forall|i: int|
            0 <= i < packet.len() && !crate::ip_packet::in_source(packet, i) && !crate::ip_packet::in_checksum(
                packet,
                i,
            ) ==> #[trigger] state.outbound(packet)->Ok_0[i] == packet[i],
{
    if let Some(ResourceDescription::Dns(r)) = state.translation(source_of(packet)->0) {
        let source = if ip_version(packet) == Some(IpVersion::V4) {
            IpAddress::V4(r.ipv4)
        } else {
            IpAddress::V6(r.ipv6)
        };
        crate::ip_packet::lemma_new_source_keeps_the_rest(packet, source);
    }
}

/// A packet for the device, of the family of `addr`.
pub open spec fn framed(packet: Seq<u8>, addr: IpAddress) -> (IpVersion, Seq<u8>) {
    (
        if addr is V4 {
            IpVersion::V4
        } else {
            IpVersion::V6
        },
        packet,
    )
}

/// The packet with `dst_addr` as its destination and its checksums
/// renewed. Bytes that are no IP packet stay as they are.
pub open spec fn rewritten(packet: Seq<u8>, dst_addr: IpAddress) -> Seq<u8> {
    if ip_version(packet) is Some {
        with_checksums(with_destination(packet, dst_addr))
    } else {
        packet
    }
}

/// `ip`, if it is of the family of `addr`.
pub open spec fn matching_version_ip(addr: IpAddress, ip: IpAddress) -> Option<IpAddress> {
    if addr.same_family(ip) {
        Some(ip)
    } else {
        None
    }
}

/// The first of `candidates` that is of the family of `addr`.
pub open spec fn first_matching(candidates: Seq<IpAddress>, addr: IpAddress) -> Option<IpAddress>
    decreases candidates.len(),
{
    if candidates.len() == 0 {
        None
    } else if addr.same_family(candidates[0]) {
        Some(candidates[0])
    } else {
        first_matching(candidates.drop_first(), addr)
    }
}

/// The destination, and the port if the resource names one, for a packet
/// that a peer at `addr` sent to `dst` inside `resource`.
///
/// For a resource reached by name, `resolved` is what resolving the name
/// gave, `None` if that failed; the destination is the first address of
/// `addr`'s family. For a network resource the destination is `dst`,
/// which has to lie in the network and be of `addr`'s family.
pub open spec fn resource_target(
    resource: ResourceDescription,
    addr: IpAddress,
    dst: IpAddress,
    resolved: Option<Seq<IpAddress>>,
) -> Result<(IpAddress, Option<u16>), Error> {
    match resource {
        ResourceDescription::Dns(r) => match resolved {
            None => Err(Error::InvalidResource),
            Some(candidates) => match first_matching(candidates, addr) {
                None => Err(Error::InvalidResource),
                Some(a) => Ok((a, port_of(r.address@))),
            },
        },
        ResourceDescription::Cidr(r) => if r.address.covers(dst) {
            match matching_version_ip(addr, dst) {
                Some(a) => Ok((a, None)),
                None => Err(Error::InvalidResource),
            }
        } else {
            Err(Error::InvalidSource)
        },
    }
}

/// What resolving a name gave, as plain values.
pub open spec fn resolved_view(resolved: Option<&Vec<IpAddress>>) -> Option<Seq<IpAddress>> {
    match resolved {
        Some(v) => Some(v@),
        None => None,
    }
}

/// What a session's answer means for the network, when it cannot be a
/// packet for the device: a message to send, taken from the start of
/// `buf`, nothing, or the refusal as an error.
pub open spec fn network_bytes(reply: SessionReply, buf: Seq<u8>) -> Result<Option<Seq<u8>>, Error> {
    match reply {
        SessionReply::Refused(k) => Err(Error::WireguardError(k)),
        SessionReply::WriteToNetwork(n) => Ok(Some(buf.take(n as int))),
        _ => Ok(None),
    }
}

/// Whether an executable result and its description agree.
pub open spec fn bytes_agree(r: Result<Option<Vec<u8>>, Error>, s: Result<Option<Seq<u8>>, Error>) -> bool {
    match (r, s) {
        (Ok(Some(b)), Ok(Some(t))) => b@ == t,
        (Ok(None), Ok(None)) => true,
        (Err(e), Err(f)) => e == f,
        _ => false,
    }
}

/// Whether an executable result and its description agree.
pub open spec fn packet_agrees(
    r: Result<Option<Packet>, Error>,
    s: Result<Option<(IpVersion, Seq<u8>)>, Error>,
) -> bool {
    match (r, s) {
        (Ok(Some(p)), Ok(Some(t))) => p@ == t,
        (Ok(None), Ok(None)) => true,
        (Err(e), Err(f)) => e == f,
        _ => false,
    }
}

/// A copy of the first `n` bytes of `buf`.
pub fn copy_prefix(buf: &Vec<u8>, n: usize) -> (r: Vec<u8>)
    requires
        n <= buf.len(),
    ensures
        r@ == buf@.take(n as int),
{
    vstd::slice::slice_to_vec(slice_subrange(buf.as_slice(), 0, n))
}

/// Takes up one answer of a session that was asked for what it held
/// back: a message for the peer is added to `packets`, and there may be
/// more; any other answer ends the asking.
pub fn flush_step(packets: &mut VecDeque<Vec<u8>>, reply: SessionReply, dst: &Vec<u8>) -> (more: bool)
    requires
        reply.fits(dst@.len()),
    ensures
        more == reply is WriteToNetwork,
        final(packets)@.len() == old(packets)@.len() + if more {
            1int
        } else {
            0int
        },
        bytes_of(final(packets)@) == match reply {
            SessionReply::WriteToNetwork(n) => bytes_of(old(packets)@).push(dst@.take(n as int)),
            _ => bytes_of(old(packets)@),
        },
{
    match reply {
        SessionReply::WriteToNetwork(n) => {
            packets.push_back(copy_prefix(dst, n));
            assert(bytes_of(packets@) =~= bytes_of(old(packets)@).push(dst@.take(n as int)));
            true
        },
        _ => false,
    }
}

/// What a session's answer means for the network: see
/// [`network_bytes`].
pub fn network_reply(reply: SessionReply, buf: &Vec<u8>) -> (r: Result<Option<Vec<u8>>, Error>)
    requires
        reply.fits(buf@.len()),
        !reply.for_tunnel(),
    ensures
        bytes_agree(r, network_bytes(reply, buf@)),
{
    match reply {
        SessionReply::Done => Ok(None),
        SessionReply::Refused(k) => Err(Error::WireguardError(k)),
        SessionReply::WriteToNetwork(n) => Ok(Some(copy_prefix(buf, n))),
        _ => Ok(None),
    }
}

/// A packet for the device, of the family of `dst_addr`.
pub fn make_packet(packet: Vec<u8>, dst_addr: IpAddress) -> (p: Packet)
    ensures
        p@ == framed(packet@, dst_addr),
{
    match dst_addr {
        IpAddress::V4(_) => Packet::Ipv4(packet),
        IpAddress::V6(_) => Packet::Ipv6(packet),
    }
}

/// Gives a packet the destination `dst_addr` and renews its checksums.
/// Bytes that are no IP packet stay as they are.
pub fn update_packet(packet: Vec<u8>, dst_addr: IpAddress) -> (r: Vec<u8>)
    ensures
        r@ == rewritten(packet@, dst_addr),
{
    match MutableIpPacket::owned(packet) {
        Ok(mut pkt) => {
            pkt.set_dst(dst_addr);
            pkt.update_checksum();
            pkt.into_bytes()
        },
        Err(bytes) => bytes,
    }
}

/// `ip`, if it is of the family of `addr`.
pub fn get_matching_version_ip(addr: &IpAddress, ip: &IpAddress) -> (r: Option<IpAddress>)
    ensures
        r == matching_version_ip(*addr, *ip),
{
    if (addr.is_ipv4() && ip.is_ipv4()) || (addr.is_ipv6() && ip.is_ipv6()) {
        Some(*ip)
    } else {
        None
    }
}

/// The first of `candidates` that is of the family of `addr`.
pub fn find_matching_version_ip(candidates: &Vec<IpAddress>, addr: &IpAddress) -> (r: Option<IpAddress>)
    ensures
        r == first_matching(candidates@, *addr),
{
    let mut i: usize = 0;
    assert(candidates@.skip(0) == candidates@);
    while i < candidates.len()
        invariant
            i <= candidates.len(),
            first_matching(candidates@, *addr) == first_matching(candidates@.skip(i as int), *addr),
        decreases candidates.len() - i,
    {
        proof {
            assert(candidates@.skip(i as int)[0] == candidates@[i as int]);
            assert(candidates@.skip(i as int).drop_first() == candidates@.skip(i + 1));
        }
        match get_matching_version_ip(addr, &candidates[i]) {
            Some(a) => {
                return Some(a);
            },
            None => {},
        }
        i += 1;
    }
    None
}

/// Works out where a packet goes that a peer at `addr` sent to `dst`
/// inside `resource`, and records a destination resolved for a resource
/// reached by name. See [`resource_target`].
pub fn get_resource_addr_and_port(
    peer: &mut Peer,
    resource: &ResourceDescription,
    addr: &IpAddress,
    dst: &IpAddress,
    resolved: Option<&Vec<IpAddress>>,
) -> (r: Result<(IpAddress, Option<u16>), Error>)
    requires
        old(peer).wf(),
        resource.wf(),
    ensures
        final(peer).wf(),
        r == resource_target(*resource, *addr, *dst, resolved_view(resolved)),
        final(peer)@ == old(peer)@.record(*resource, r),
        final(peer).held_back() == old(peer).held_back(),
{
    match resource {
        ResourceDescription::Dns(r) => {
            let Some(candidates) = resolved else {
                return Err(Error::InvalidResource);
            };
            let Some(dst_addr) = find_matching_version_ip(candidates, addr) else {
                return Err(Error::InvalidResource);
            };
            peer.update_translated_resource_address(r.id, dst_addr);
            Ok((dst_addr, r.port()))
        },
        ResourceDescription::Cidr(r) => {
            if r.address.contains(*dst) {
                match get_matching_version_ip(addr, dst) {
                    Some(a) => Ok((a, None)),
                    None => Err(Error::InvalidResource),
                }
            } else {
                Err(Error::InvalidSource)
            }
        },
    }
}

/// Decides what becomes of a packet decrypted from `addr`: see
/// [`PeerState::route`]. `resolved` is what resolving the name of the
/// packet's resource gave, where [`Peer::lookup_needed`] asked for that.
pub fn make_packet_for_resource(
    peer: &mut Peer,
    addr: IpAddress,
    packet: Vec<u8>,
    resolved: Option<&Vec<IpAddress>>,
) -> (r: Result<Option<Packet>, Error>)
    requires
        old(peer).wf(),
    ensures
        final(peer).wf(),
        packet_agrees(r, old(peer)@.route(addr, packet@, resolved_view(resolved)).0),
        final(peer)@ == old(peer)@.route(addr, packet@, resolved_view(resolved)).1,
        final(peer).held_back() == old(peer).held_back(),
{
    if !peer.is_allowed(addr) {
        return Ok(None);
    }
    if !peer.keeps_grants() {
        return Ok(Some(make_packet(packet, addr)));
    }
    let Some((dst, resource)) = peer.get_packet_resource(packet.as_slice()) else {
        return Ok(None);
    };
    proof {
        peer.lemma_resource_wf(packet@);
    }
    match get_resource_addr_and_port(peer, &resource, &addr, &dst, resolved) {
        Ok((dst_addr, _)) => {
            let packet = match resource {
                ResourceDescription::Dns(_) => update_packet(packet, dst_addr),
                ResourceDescription::Cidr(_) => packet,
            };
            Ok(Some(make_packet(packet, addr)))
        },
        Err(e) => Err(e),
    }
}

/// A decrypted packet that waits for a name to be resolved.
pub struct PendingPacket {
    /// The name to resolve.
    pub host: String,
    /// The address of the peer that sent the packet.
    pub addr: IpAddress,
    pub packet: Vec<u8>,
}

/// What is to be done with what a peer sent.
pub enum WriteTo {
    /// Send these messages back to the peer, in this order.
    Network(VecDeque<Vec<u8>>),
    /// Hand this packet to the device.
    Resource(Packet),
    /// Resolve the name, then call [`make_packet_for_resource`] with the
    /// addresses it gave.
    Resolve(PendingPacket),
}

/// The byte strings of `q` as plain sequences.
pub open spec fn bytes_of(q: Seq<Vec<u8>>) -> Seq<Seq<u8>> {
    q.map_values(|b: Vec<u8>| b@)
}

/// A [`WriteTo`] with bytes as plain sequences.
pub enum WriteToView {
    Network(Seq<Seq<u8>>),
    Resource((IpVersion, Seq<u8>)),
    Resolve { host: Seq<char>, addr: IpAddress, packet: Seq<u8> },
}

impl View for WriteTo {
    type V = WriteToView;

    open spec fn view(&self) -> WriteToView {
        match self {
            WriteTo::Network(q) => WriteToView::Network(bytes_of(q@)),
            WriteTo::Resource(p) => WriteToView::Resource(p@),
            WriteTo::Resolve(p) => WriteToView::Resolve { host: p.host@, addr: p.addr, packet: p.packet@ },
        }
    }
}

/// Whether what [`Peer::deliver`] gives agrees with its description.
pub open spec fn delivery_agrees(
    r: Result<Option<WriteTo>, Error>,
    lookup: Option<Seq<char>>,
    addr: IpAddress,
    packet: Seq<u8>,
    routed: Result<Option<(IpVersion, Seq<u8>)>, Error>,
) -> bool {
    match lookup {
        Some(host) => r matches Ok(Some(WriteTo::Resolve(p))) && p.host@ == host && p.addr == addr
            && p.packet@ == packet,
        None => match (r, routed) {
            (Ok(Some(WriteTo::Resource(p))), Ok(Some(t))) => p@ == t,
            (Ok(None), Ok(None)) => true,
            (Err(e), Err(f)) => e == f,
            _ => false,
        },
    }
}

/// The messages for the peer among `answers`, in their order, where each
/// answer of a session comes with the buffer that the session wrote it
/// to.
pub open spec fn flush_of(answers: Seq<(SessionReply, Seq<u8>)>) -> Seq<Seq<u8>>
    decreases answers.len(),
{
    if answers.len() == 0 {
        Seq::empty()
    } else {
        match answers.last().0 {
            SessionReply::WriteToNetwork(n) => flush_of(answers.drop_last()).push(answers.last().1.take(n as int)),
            _ => flush_of(answers.drop_last()),
        }
    }
}

/// Whether `answers` can be what a session answers when it is asked,
/// time after time, for what it held back: it is asked until it answers
/// with something else than a message for the peer, and
/// [`MAX_FLUSH_ROUNDS`] times at most.
pub open spec fn is_flush(answers: Seq<(SessionReply, Seq<u8>)>) -> bool {
    &&& answers.len() <= MAX_FLUSH_ROUNDS
    &&& forall|i: int|
        0 <= i < answers.len() ==> (#[trigger] answers[i]).0.fits(answers[i].1.len()) && (i < answers.len() - 1
            ==> answers[i].0 is WriteToNetwork)
    &&& answers.len() < MAX_FLUSH_ROUNDS ==> answers.len() > 0 && !(answers.last().0 is WriteToNetwork)
}

/// Whether `r` and `after` are what a peer in state `state` makes of the
/// session's answer `reply` to a datagram, where `buf` is the buffer the
/// session wrote to.
///
/// Nothing to do gives nothing; a refusal is the error. A message for
/// the peer is sent back, together with all that the session gives up
/// when it is then asked for what it held back: the messages come in
/// the order in which the session gave them, none is left out and none
/// comes twice. A decrypted packet waits for its resource's name to be
/// resolved, if it has one; else it is routed as [`PeerState::route`]
/// says.
pub open spec fn explains(
    state: PeerState,
    reply: SessionReply,
    buf: Seq<u8>,
    r: Result<Option<WriteTo>, Error>,
    after: PeerState,
) -> bool {
    match reply {
        SessionReply::Done => r matches Ok(None) && after == state,
        SessionReply::Refused(k) => r matches Err(e) && e == Error::WireguardError(k) && after == state,
        SessionReply::WriteToNetwork(n) => r matches Ok(Some(WriteTo::Network(q))) && q@.len() >= 1
            && q@[0]@ == buf.take(n as int) && after == state && exists|answers: Seq<(SessionReply, Seq<u8>)>| #[trigger]
            is_flush(answers) && bytes_of(q@) == seq![buf.take(n as int)] + flush_of(answers),
        SessionReply::WriteToTunnelV4(n, a) => delivers(state, IpAddress::V4(a), buf.take(n as int), r, after),
        SessionReply::WriteToTunnelV6(n, a) => delivers(state, IpAddress::V6(a), buf.take(n as int), r, after),
    }
}

/// Whether `r` and `after` are what a peer in state `state` makes of a
/// packet decrypted from `addr`.
pub open spec fn delivers(
    state: PeerState,
    addr: IpAddress,
    packet: Seq<u8>,
    r: Result<Option<WriteTo>, Error>,
    after: PeerState,
) -> bool {
    &&& delivery_agrees(r, state.lookup(addr, packet), addr, packet, state.route(addr, packet, None).0)
    &&& after == if state.lookup(addr, packet) is Some {
        state
    } else {
        state.route(addr, packet, None).1
    }
}

/// Whatever a peer makes of a datagram, it keeps its identity, the
/// prefixes it may use and its grants.
pub proof fn lemma_explains_keeps_id(
    state: PeerState,
    reply: SessionReply,
    buf: Seq<u8>,
    r: Result<Option<WriteTo>, Error>,
    after: PeerState,
)
    requires
        explains(state, reply, buf, r, after),
    ensures
        after.conn_id == state.conn_id,
        after.allowed_ips == state.allowed_ips,
        after.resources == state.resources,
{
}

/// How often a session is asked in a row for what it held back. A
/// session holds back 256 packets at most.
pub const MAX_FLUSH_ROUNDS: usize = 257;

pub struct Peer {
    /// The WireGuard session with the peer.
    tunnel: Tunn,
    /// The prefixes the peer may send from. Each maps to `conn_id`.
    allowed_ips: IpNetworkTable<u128>,
    pub conn_id: ConnId,
    /// The grants of the peer; `None` for a full-tunnel peer.
    resources: Option<ResourceTable>,
    /// Each address that a name was resolved to, mapped to the resource
    /// of that name. A translation goes when the grant of its resource
    /// ends, not before; nothing tracks which of several resolutions of
    /// one name is the current one.
    translated_resource_addresses: TranslationMap,
}

/// What a peer looks like from outside, for inspection.
pub struct PeerStats {
    pub allowed_ips: Vec<IpPrefix>,
    pub conn_id: ConnId,
    pub dns_resources: Vec<ExpiringResource>,
    pub network_resources: Vec<ExpiringResource>,
    pub translated_resource_addresses: Vec<(IpAddress, ResourceId)>,
}

impl PeerStats {
    /// Whether these are the statistics of a peer in state `state`:
    /// every allowed prefix once, the grants by kind in the order they
    /// were made, and every translation once.
    pub open spec fn describes(self, state: PeerState) -> bool {
        &&& self.conn_id == state.conn_id
        &&& self.allowed_ips@.to_set() == state.allowed_ips
        &&& self.allowed_ips@.no_duplicates()
        &&& self.network_resources@ == match state.resources {
            Some(g) => crate::resource_table::retained(g, |e: ExpiringResource| e.0 is Cidr),
            None => Seq::empty(),
        }
        &&& self.dns_resources@ == match state.resources {
            Some(g) => crate::resource_table::retained(g, |e: ExpiringResource| e.0 is Dns),
            None => Seq::empty(),
        }
        &&& self.translated_resource_addresses@.no_duplicates()
        &&& forall|a: IpAddress, id: ResourceId| #[trigger]
            self.translated_resource_addresses@.contains((a, id)) <==> state.translations.contains_pair(a, id)
    }
}

impl View for Peer {
    type V = PeerState;

    closed spec fn view(&self) -> PeerState {
        PeerState {
            conn_id: self.conn_id,
            allowed_ips: table_entries(self.allowed_ips).dom(),
            resources: match self.resources {
                Some(t) => Some(t@),
                None => None,
            },
            translations: self.translated_resource_addresses@,
        }
    }
}

impl Peer {
    /// What the parts of a peer have to satisfy: every allowed prefix is
    /// a valid network, the grants and translations are well-formed, and
    /// whatever the session holds back fits a datagram once wrapped.
    pub closed spec fn wf(&self) -> bool {
        &&& forall|p: IpPrefix| #[trigger] table_entries(self.allowed_ips).contains_key(p) ==> p.wf()
        &&& match self.resources {
            Some(t) => t.wf(),
            None => true,
        }
        &&& self.translated_resource_addresses.wf()
        &&& forall|p: Seq<u8>| #[trigger]
            tunn_queued(self.tunnel).contains(p) ==> p.len() + DATA_OVERHEAD <= MAX_UDP_SIZE
    }

    /// The packets that the peer's session holds back until it has keys
    /// to send them with.
    pub closed spec fn held_back(&self) -> Set<Seq<u8>> {
        tunn_queued(self.tunnel)
    }

    /// A well-formed peer has well-formed grants and valid prefixes.
    pub proof fn lemma_wf(&self)
        requires
            self.wf(),
        ensures
            self@.resources matches Some(g) ==> grants_wf(g),
            forall|p: IpPrefix| #[trigger] self@.allowed_ips.contains(p) ==> p.wf(),
    {
    }

    /// A peer for the holder of `peer_config.public_key`, allowed to use
    /// the prefixes of `peer_config`. With a grant it keeps a table of
    /// grants that starts with that one; without, it is a full-tunnel
    /// peer.
    pub fn new(
        private_key: &[u8; 32],
        index: u32,
        peer_config: PeerConfig,
        conn_id: ConnId,
        resource: Option<ExpiringResource>,
        rate_limiter: Arc<RateLimiter>,
    ) -> (peer: Peer)
        requires
            peer_config.wf(),
            resource matches Some(r) ==> r.0.wf(),
        ensures
            peer.wf(),
            peer@.conn_id == conn_id,
            peer@.allowed_ips == peer_config.ips@.to_set(),
            peer@.resources == match resource {
                Some(r) => Some(seq![r]),
                None => None,
            },
            peer@.translations == Map::<IpAddress, ResourceId>::empty(),
            peer.held_back() == Set::<Seq<u8>>::empty(),
    {
        let tunnel = tunn_new(
            private_key,
            &peer_config.public_key,
            &peer_config.preshared_key,
            peer_config.persistent_keepalive,
            index,
            &rate_limiter,
        );
        let mut allowed_ips = table_new();
        let mut i: usize = 0;
        while i < peer_config.ips.len()
            invariant
                i <= peer_config.ips.len(),
                peer_config.wf(),
                table_entries(allowed_ips).dom() == peer_config.ips@.take(i as int).to_set(),
                forall|p: IpPrefix| #[trigger] table_entries(allowed_ips).contains_key(p) ==> p.wf(),
            decreases peer_config.ips.len() - i,
        {
            let ghost before = table_entries(allowed_ips).dom();
            let ip = peer_config.ips[i];
            table_insert(&mut allowed_ips, ip, conn_id);
            proof {
                let prev = peer_config.ips@.take(i as int);
                let next = peer_config.ips@.take(i + 1);
                assert(next == prev.push(ip));
                assert(next.to_set() =~= prev.to_set().insert(ip)) by {
                    assert forall|p: IpPrefix| next.to_set().contains(p) <==> prev.to_set().insert(
                        ip,
                    ).contains(p) by {
                        if next.contains(p) {
                            let k = choose|k: int| 0 <= k < next.len() && next[k] == p;
                            if k < prev.len() {
                                assert(prev[k] == p);
                            }
                        }
                        if prev.contains(p) {
                            let k = choose|k: int| 0 <= k < prev.len() && prev[k] == p;
                            assert(next[k] == p);
                        }
                        if p == ip {
                            assert(next[i as int] == p);
                        }
                    }
                }
                assert(table_entries(allowed_ips).dom() =~= before.insert(ip));
            }
            i += 1;
        }
        assert(peer_config.ips@.take(i as int) == peer_config.ips@);
        let resources = match resource {
            Some(r) => {
                let mut table = ResourceTable::new();
                table.insert(r);
                proof {
                    crate::resource_table::lemma_retained(
                        Seq::<ExpiringResource>::empty(),
                        |e: ExpiringResource| e.0.spec_id() != r.0.spec_id(),
                    );
                    assert(table@ =~= seq![r]);
                }
                Some(table)
            },
            None => None,
        };
        Peer {
            tunnel,
            allowed_ips,
            conn_id,
            resources,
            translated_resource_addresses: TranslationMap::new(),
        }
    }

    /// The identity of the peer's connection.
    pub fn conn_id(&self) -> (id: ConnId)
        ensures
            id == self@.conn_id,
    {
        self.conn_id
    }

    /// Whether the peer may send from `addr`: whether some allowed prefix
    /// covers it.
    pub fn is_allowed(&self, addr: IpAddress) -> (b: bool)
        ensures
            b == self@.allows(addr),
    {
        let found = table_longest_match(&self.allowed_ips, addr);
        proof {
            let m = table_entries(self.allowed_ips);
            match found {
                Some((p, _)) => {
                    assert(self@.allowed_ips.contains(p) && p.covers(addr));
                },
                None => {
                    assert forall|p: IpPrefix| !(#[trigger] self@.allowed_ips.contains(p) && p.covers(addr)) by {
                        if m.contains_key(p) {
                            assert(!p.covers(addr));
                        }
                    }
                },
            }
        }
        found.is_some()
    }

    /// Lets the peer send from one more prefix.
    pub fn add_allowed_ip(&mut self, ip: IpPrefix)
        requires
            old(self).wf(),
            ip.wf(),
        ensures
            final(self).wf(),
            final(self)@ == (PeerState { allowed_ips: old(self)@.allowed_ips.insert(ip), ..old(self)@ }),
    {
        let id = self.conn_id;
        table_insert(&mut self.allowed_ips, ip, id);
        assert(table_entries(self.allowed_ips).dom() =~= table_entries(old(self).allowed_ips).dom().insert(ip));
    }

    /// Whether the peer keeps a table of grants and it is empty. A
    /// full-tunnel peer is never emptied.
    pub fn is_emptied(&self) -> (b: bool)
        ensures
            b == self@.emptied(),
    {
        match &self.resources {
            Some(t) => t.is_empty(),
            None => false,
        }
    }

    /// Drops the grants that have ended by `now`, and with each the
    /// translations that point at its resource.
    pub fn expire_resources_at(&mut self, now: Timestamp)
        requires
            old(self).wf(),
        ensures
            final(self).wf(),
            final(self)@ == old(self)@.expire(now),
    {
        match &mut self.resources {
            Some(t) => {
                let gone = t.expire(now);
                self.translated_resource_addresses.purge(&gone);
            },
            None => {},
        }
    }

    /// Drops the grants that have ended by now, as the system clock has
    /// it, and with each the translations that point at its resource.
    pub fn expire_resources(&mut self)
        requires
            old(self).wf(),
        ensures
            final(self).wf(),
            exists|t: Timestamp| final(self)@ == #[trigger] old(self)@.expire(t),
    {
        let t = now();
        self.expire_resources_at(t);
    }

    /// Grants the peer a resource until `expires_at`. A full-tunnel peer
    /// keeps no grants and stays as it is.
    pub fn add_resource(&mut self, resource: ResourceDescription, expires_at: Timestamp)
        requires
            old(self).wf(),
            resource.wf(),
        ensures
            final(self).wf(),
            final(self)@ == old(self)@.grant((resource, expires_at)),
    {
        match &mut self.resources {
            Some(t) => {
                t.insert((resource, expires_at));
            },
            None => {},
        }
    }

    /// Records that `addr` was resolved for resource `id`.
    pub fn update_translated_resource_address(&mut self, id: ResourceId, addr: IpAddress)
        requires
            old(self).wf(),
        ensures
            final(self).wf(),
            final(self)@ == (PeerState {
                translations: old(self)@.translations.insert(addr, id),
                ..old(self)@
            }),
            final(self).held_back() == old(self).held_back(),
    {
        self.translated_resource_addresses.insert(addr, id);
    }

    /// The resource that `ip` was last resolved for, if the peer still
    /// holds a grant for it.
    pub fn get_translation(&self, ip: IpAddress) -> (r: Option<ResourceDescription>)
        requires
            self.wf(),
        ensures
            r == self@.translation(ip),
    {
        let id = self.translated_resource_addresses.get(ip);
        match &self.resources {
            Some(t) => match id {
                Some(id) => match t.get_by_id(id) {
                    Some(e) => Some(e.0.clone()),
                    None => None,
                },
                None => None,
            },
            None => None,
        }
    }

    /// What the peer holds, for inspection: every allowed prefix once,
    /// the grants by kind in the order they were made, and every
    /// translation once.
    pub fn stats(&self) -> (s: PeerStats)
        requires
            self.wf(),
        ensures
            s.describes(self@),
    {
        let (network_resources, dns_resources) = match &self.resources {
            Some(t) => (t.network_resources(), t.dns_resources()),
            None => (Vec::new(), Vec::new()),
        };
        let entries = table_iter(&self.allowed_ips);
        let mut allowed_ips: Vec<IpPrefix> = Vec::new();
        let mut i: usize = 0;
        while i < entries.len()
            invariant
                i <= entries.len(),
                allowed_ips@.len() == i,
                forall|k: int| 0 <= k < i ==> allowed_ips@[k] == (#[trigger] entries@[k]).0,
            decreases entries.len() - i,
        {
            allowed_ips.push(entries[i].0);
            i += 1;
        }
        proof {
            let m = table_entries(self.allowed_ips);
            assert forall|p: IpPrefix| allowed_ips@.to_set().contains(p) <==> self@.allowed_ips.contains(p) by {
                if allowed_ips@.contains(p) {
                    let k = choose|k: int| 0 <= k < allowed_ips@.len() && allowed_ips@[k] == p;
                    assert(entries@.contains(entries@[k]));
                    assert(m.contains_pair(entries@[k].0, entries@[k].1));
                }
                if m.contains_key(p) {
                    assert(m.contains_pair(p, m[p]));
                    assert(entries@.contains((p, m[p])));
                    let k = choose|k: int| 0 <= k < entries@.len() && entries@[k] == (p, m[p]);
                    assert(allowed_ips@[k] == p);
                }
            }
            assert(allowed_ips@.to_set() =~= self@.allowed_ips);
            assert forall|x: int, y: int|
                0 <= x < allowed_ips@.len() && 0 <= y < allowed_ips@.len() && x != y implies allowed_ips@[x]
                != allowed_ips@[y] by {
                if allowed_ips@[x] == allowed_ips@[y] {
                    assert(entries@.contains(entries@[x]));
                    assert(entries@.contains(entries@[y]));
                    assert(m.contains_pair(entries@[x].0, entries@[x].1));
                    assert(m.contains_pair(entries@[y].0, entries@[y].1));
                    assert(entries@[x] == entries@[y]);
                }
            }
        }
        PeerStats {
            allowed_ips,
            conn_id: self.conn_id,
            dns_resources,
            network_resources,
            translated_resource_addresses: self.translated_resource_addresses.entries(),
        }
    }

    /// Whether the peer keeps a table of grants, that is, whether it is
    /// no full-tunnel peer.
    pub fn keeps_grants(&self) -> (b: bool)
        ensures
            b == self@.resources is Some,
    {
        self.resources.is_some()
    }

    /// The resource that answers for a packet is a valid one.
    pub proof fn lemma_resource_wf(&self, packet: Seq<u8>)
        requires
            self.wf(),
        ensures
            self@.packet_resource(packet) matches Some((_, resource)) ==> resource.wf(),
    {
        if let Some((dst, resource)) = self@.packet_resource(packet) {
            let g = self@.resources->0;
            let i = choose|i: int| crate::resource_table::is_best_match(g, dst, i);
            assert(g[i].0.wf());
        }
    }

    /// The destination of a packet and the resource granted to the peer
    /// that answers for it.
    pub fn get_packet_resource(&self, packet: &[u8]) -> (r: Option<(IpAddress, ResourceDescription)>)
        requires
            self.wf(),
        ensures
            r == self@.packet_resource(packet@),
    {
        let Some(resources) = &self.resources else {
            return None;
        };
        let Some(dst) = destination(packet) else {
            return None;
        };
        match resources.get_by_ip(dst) {
            Some(e) => Some((dst, e.0.clone())),
            None => None,
        }
    }

    /// The name that has to be resolved before a packet decrypted from
    /// `addr` can be routed, if there is one.
    pub fn lookup_needed(&self, addr: IpAddress, packet: &[u8]) -> (r: Option<String>)
        requires
            self.wf(),
        ensures
            match r {
                Some(host) => self@.lookup(addr, packet@) == Some(host@),
                None => self@.lookup(addr, packet@) is None,
            },
    {
        if !self.is_allowed(addr) {
            return None;
        }
        match self.get_packet_resource(packet) {
            Some((_, ResourceDescription::Dns(r))) => Some(r.host()),
            _ => None,
        }
    }

    /// Prepares an outgoing packet for the session: see
    /// [`PeerState::outbound`]. On an error the packet stays as it was.
    pub fn translate_source(&self, packet: &mut MutableIpPacket) -> (r: Result<(), Error>)
        requires
            self.wf(),
            old(packet).wf(),
        ensures
            final(packet).wf(),
            final(packet)@.len() == old(packet)@.len(),
            match self@.outbound(old(packet)@) {
                Ok(bytes) => r is Ok && final(packet)@ == bytes,
                Err(e) => r == Err::<(), Error>(e) && final(packet)@ == old(packet)@,
            },
    {
        match self.get_translation(packet.source()) {
            Some(ResourceDescription::Dns(resource)) => {
                let source = match packet.version() {
                    IpVersion::V4 => IpAddress::V4(resource.ipv4),
                    IpVersion::V6 => IpAddress::V6(resource.ipv6),
                };
                proof {
                    crate::ip_packet::lemma_address_round_trip(packet@, source);
                    crate::ip_packet::lemma_checksums_keep_addresses(with_source(packet@, source));
                }
                packet.set_src(source);
                packet.update_checksum();
                Ok(())
            },
            Some(ResourceDescription::Cidr(_)) => Err(Error::ControlProtocolError),
            None => Ok(()),
        }
    }

    /// Sends `packet` to this peer: wraps it in a WireGuard message.
    ///
    /// The packet is first prepared as [`PeerState::outbound`] says, and
    /// an error there is the result. What comes of the rest is up to the
    /// session: a message to send, nothing, or a refusal.
    pub fn encapsulate(&mut self, packet: MutableIpPacket, dest: IpAddress, buf: &mut Vec<u8>) -> (r: Result<
        Option<Vec<u8>>,
        Error,
    >)
        requires
            old(self).wf(),
            packet.wf(),
            packet@.len() + DATA_OVERHEAD <= MAX_UDP_SIZE,
            old(buf).len() >= packet@.len() + DATA_OVERHEAD,
            old(buf).len() >= HANDSHAKE_INIT_SIZE,
        ensures
            final(self).wf(),
            final(self)@ == old(self)@,
            final(buf).len() == old(buf).len(),
            match old(self)@.outbound(packet@) {
                Err(_) => final(self).held_back() == old(self).held_back(),
                Ok(prepared) => final(self).held_back().subset_of(old(self).held_back().insert(prepared)),
            },
            match old(self)@.outbound(packet@) {
                Err(e) => r == Err::<Option<Vec<u8>>, Error>(e),
                Ok(_) => exists|reply: SessionReply|
                    reply.fits(final(buf)@.len()) && !reply.for_tunnel() && bytes_agree(
                        r,
                        #[trigger] network_bytes(reply, final(buf)@),
                    ),
            },
    {
        let mut packet = packet;
        match self.translate_source(&mut packet) {
            Ok(()) => {},
            Err(e) => {
                return Err(e);
            },
        }
        let reply = settle(tunn_encapsulate(&mut self.tunnel, packet.packet(), buf));
        network_reply(reply, buf)
    }

    /// Lets the session act on the time that has passed. What comes of it
    /// is up to the session: a message to send, of the length of a
    /// handshake initiation at most, nothing, or a refusal.
    pub fn update_timers(&mut self) -> (r: Result<Option<Vec<u8>>, Error>)
        requires
            old(self).wf(),
        ensures
            final(self).wf(),
            final(self)@ == old(self)@,
            final(self).held_back().subset_of(old(self).held_back().insert(Seq::empty())),
            exists|reply: SessionReply, buf: Seq<u8>|
                buf.len() == HANDSHAKE_INIT_SIZE && reply.fits(buf.len()) && !reply.for_tunnel()
                    && bytes_agree(r, #[trigger] network_bytes(reply, buf)),
    {
        let mut buf: Vec<u8> = vec![0u8; HANDSHAKE_INIT_SIZE];
        let reply = settle(tunn_update_timers(&mut self.tunnel, &mut buf));
        let r = network_reply(reply, &buf);
        assert(bytes_agree(r, network_bytes(reply, buf@)));
        r
    }

    /// Decides what becomes of a packet decrypted from `addr`: it waits
    /// for its resource's name to be resolved, if it has one; else it is
    /// routed. See [`delivers`].
    pub fn deliver(&mut self, addr: IpAddress, packet: Vec<u8>) -> (r: Result<Option<WriteTo>, Error>)
        requires
            old(self).wf(),
        ensures
            final(self).wf(),
            delivers(old(self)@, addr, packet@, r, final(self)@),
            final(self).held_back() == old(self).held_back(),
    {
        match self.lookup_needed(addr, packet.as_slice()) {
            Some(host) => Ok(Some(WriteTo::Resolve(PendingPacket { host, addr, packet }))),
            None => match make_packet_for_resource(self, addr, packet, None) {
                Ok(Some(p)) => Ok(Some(WriteTo::Resource(p))),
                Ok(None) => Ok(None),
                Err(e) => Err(e),
            },
        }
    }

    /// Acts on the session's answer `reply` to a datagram, where `dst`
    /// is the buffer the session wrote to. See [`explains`]. After a
    /// message for the peer the session is asked, with no input, for
    /// what it held back, until it gives no more; each answer is taken
    /// up as [`flush_step`] says.
    pub fn handle_decapsulated(&mut self, reply: SessionReply, dst: &mut Vec<u8>) -> (r: Result<
        Option<WriteTo>,
        Error,
    >)
        requires
            old(self).wf(),
            reply.fits(old(dst)@.len()),
            old(dst).len() >= MAX_UDP_SIZE,
        ensures
            final(self).wf(),
            final(dst).len() == old(dst).len(),
            explains(old(self)@, reply, old(dst)@, r, final(self)@),
            r matches Ok(Some(WriteTo::Network(q))) ==> q@.len() <= MAX_FLUSH_ROUNDS + 1 && forall|i: int|
                0 <= i < q@.len() ==> (#[trigger] q@[i])@.len() <= old(dst).len(),
            final(self).held_back().subset_of(old(self).held_back()),
            old(self).held_back() == Set::<Seq<u8>>::empty() ==> (r matches Ok(Some(WriteTo::Network(q))) ==> q@.len()
                == 1),
    {
        match reply {
            SessionReply::Done => Ok(None),
            SessionReply::Refused(k) => Err(Error::WireguardError(k)),
            SessionReply::WriteToNetwork(n) => {
                let mut packets: VecDeque<Vec<u8>> = VecDeque::new();
                packets.push_back(copy_prefix(dst, n));
                let ghost first = old(dst)@.take(n as int);
                let ghost mut answers: Seq<(SessionReply, Seq<u8>)> = Seq::empty();
                let mut rounds: usize = 0;
                let mut more = true;
                proof {
                    assert(bytes_of(packets@) =~= seq![first] + flush_of(answers));
                }
                while more && rounds < MAX_FLUSH_ROUNDS
                    invariant
                        self.wf(),
                        self@ == old(self)@,
                        dst.len() == old(dst).len(),
                        dst.len() >= MAX_UDP_SIZE,
                        rounds <= MAX_FLUSH_ROUNDS,
                        packets@.len() == rounds + 1,
                        packets@[0]@ == first,
                        first == old(dst)@.take(n as int),
                        bytes_of(packets@) == seq![first] + flush_of(answers),
                        answers.len() == rounds + if more {
                            0int
                        } else {
                            1int
                        },
                        !more ==> rounds < MAX_FLUSH_ROUNDS && !(answers.last().0 is WriteToNetwork),
                        self.held_back().subset_of(old(self).held_back()),
                        old(self).held_back() == Set::<Seq<u8>>::empty() ==> rounds == 0,
                        forall|i: int|
                            0 <= i < answers.len() ==> (#[trigger] answers[i]).0.fits(answers[i].1.len()) && (i
                                < rounds ==> answers[i].0 is WriteToNetwork),
                        forall|i: int| 0 <= i < packets@.len() ==> (#[trigger] bytes_of(packets@)[i]).len() <= dst.len(),
                    decreases
                            if more {
                                MAX_FLUSH_ROUNDS - rounds + 1
                            } else {
                                0
                            },
                {
                    let empty: Vec<u8> = Vec::new();
                    proof {
                        if old(self).held_back() == Set::<Seq<u8>>::empty() {
                            assert(self.held_back() =~= Set::<Seq<u8>>::empty());
                        }
                    }
                    let reply = settle(tunn_decapsulate(&mut self.tunnel, empty.as_slice(), dst));
                    let ghost before = answers;
                    let ghost had = bytes_of(packets@);
                    more = flush_step(&mut packets, reply, dst);
                    if more {
                        rounds += 1;
                    }
                    proof {
                        answers = before.push((reply, dst@));
                        assert(answers.drop_last() =~= before);
                        assert(bytes_of(packets@) =~= seq![first] + flush_of(answers));
                        assert(bytes_of(packets@)[0] == packets@[0]@);
                        assert forall|i: int| 0 <= i < packets@.len() implies (#[trigger] bytes_of(packets@)[i]).len()
                            <= dst.len() by {
                            if i < had.len() {
                                assert(bytes_of(packets@)[i] == had[i]);
                            }
                        }
                    }
                }
                proof {
                    assert(is_flush(answers));
                    assert forall|i: int| 0 <= i < packets@.len() implies (#[trigger] packets@[i])@.len() <= old(dst).len() by {
                        assert(bytes_of(packets@)[i] == packets@[i]@);
                    }
                }
                Ok(Some(WriteTo::Network(packets)))
            },
            SessionReply::WriteToTunnelV4(n, a) => self.deliver(IpAddress::V4(a), copy_prefix(dst, n)),
            SessionReply::WriteToTunnelV6(n, a) => self.deliver(IpAddress::V6(a), copy_prefix(dst, n)),
        }
    }

    /// Takes a datagram from the peer. What the session answers is up
    /// to it; what the peer makes of the answer is what [`explains`]
    /// says.
    pub fn decapsulate(&mut self, src: &[u8], dst: &mut Vec<u8>) -> (r: Result<Option<WriteTo>, Error>)
        requires
            old(self).wf(),
            src@.len() <= old(dst).len(),
            old(dst).len() >= MAX_UDP_SIZE,
        ensures
            final(self).wf(),
            final(dst).len() == old(dst).len(),
            final(self).held_back().subset_of(old(self).held_back()),
            old(self).held_back() == Set::<Seq<u8>>::empty() ==> (r matches Ok(Some(WriteTo::Network(q))) ==> q@.len()
                == 1),
            exists|reply: SessionReply, buf: Seq<u8>|
                reply.fits(buf.len()) && buf.len() == old(dst).len() && #[trigger] explains(
                    old(self)@,
                    reply,
                    buf,
                    r,
                    final(self)@,
                ),
    {
        let reply = settle(tunn_decapsulate(&mut self.tunnel, src, dst));
        let ghost buf = dst@;
        proof {
            if old(self).held_back() == Set::<Seq<u8>>::empty() {
                assert(self.held_back() =~= Set::<Seq<u8>>::empty());
            }
        }
        let r = self.handle_decapsulated(reply, dst);
        assert(explains(old(self)@, reply, buf, r, self@));
        r
    }
}

} // verus!
