//! The WireGuard session of a peer, as `boringtun` implements it.
//!
//! A session is a `boringtun::noise::Tunn`. What it answers depends on
//! keys, on the clock and on what the other side sent, so the functions
//! here promise little of an answer: where the bytes lie, which kinds of
//! answer a call can give, and which packets the session may still hold
//! back for later. The library's logic takes the answer from there.

use boringtun::noise::errors::WireGuardError;
use boringtun::noise::rate_limiter::RateLimiter;
use boringtun::noise::{Tunn, TunnResult};
use boringtun::x25519::{PublicKey, StaticSecret};
use std::sync::Arc;
use vstd::prelude::*;

verus! {

/// Bytes that a data message adds to the packet it carries.
pub const DATA_OVERHEAD: usize = 32;

/// Length of a handshake initiation, the longest message a session sends
/// of its own accord.
pub const HANDSHAKE_INIT_SIZE: usize = 148;

/// Length of a cookie reply.
pub const COOKIE_REPLY_SIZE: usize = 64;

/// `boringtun::noise::Tunn`: one WireGuard session. Nothing inside it is
/// looked at.
#[verifier::external_type_specification]
#[verifier::external_body]
pub struct ExTunn(Tunn);

/// `boringtun::noise::errors::WireGuardError`: why a session refused.
/// It is carried as it is and told apart by [`fault_of`].
#[verifier::external_type_specification]
#[verifier::external_body]
pub struct ExWireGuardError(WireGuardError);

/// `boringtun::noise::rate_limiter::RateLimiter`: the count of
/// handshakes that sessions share. Nothing inside it is looked at.
#[verifier::external_type_specification]
#[verifier::external_body]
pub struct ExRateLimiter(RateLimiter);

/// The packets that a session holds back until it has keys to send them
/// with.
pub uninterp spec fn tunn_queued(t: Tunn) -> Set<Seq<u8>>;

/// The X25519 public key that belongs to a private key.
pub uninterp spec fn x25519_public_key(private_key: Seq<u8>) -> Seq<u8>;

/// What a session answers to a call. A length counts bytes from the start
/// of the buffer that the call was given to write to.
pub enum TunnOutcome {
    /// Nothing to do.
    Done,
    /// The session refused.
    Refused(WireGuardError),
    /// The buffer starts with a message for the peer.
    WriteToNetwork(usize),
    /// The buffer starts with a decrypted IPv4 packet; the address is its
    /// source.
    WriteToTunnelV4(usize, u32),
    /// The buffer starts with a decrypted IPv6 packet; the address is its
    /// source.
    WriteToTunnelV6(usize, u128),
}

impl TunnOutcome {
    /// The bytes that the outcome speaks of fit the buffer.
    pub open spec fn fits(self, buf_len: nat) -> bool {
        match self {
            TunnOutcome::Done => true,
            TunnOutcome::Refused(_) => true,
            TunnOutcome::WriteToNetwork(n) => n <= buf_len,
            TunnOutcome::WriteToTunnelV4(n, _) => n <= buf_len,
            TunnOutcome::WriteToTunnelV6(n, _) => n <= buf_len,
        }
    }

    /// The outcome hands a packet to the local interface.
    pub open spec fn for_tunnel(self) -> bool {
        self is WriteToTunnelV4 || self is WriteToTunnelV6
    }
}

/// What a session answered, with a refusal told apart.
#[derive(Clone, Copy, Debug, PartialEq, Eq, Structural)]
pub enum SessionReply {
    Done,
    Refused(WireGuardFault),
    WriteToNetwork(usize),
    WriteToTunnelV4(usize, u32),
    WriteToTunnelV6(usize, u128),
}

impl SessionReply {
    /// The reply is `outcome`, whatever the refusal was.
    pub open spec fn settles(self, outcome: TunnOutcome) -> bool {
        match outcome {
            TunnOutcome::Done => self is Done,
            TunnOutcome::Refused(_) => self is Refused,
            TunnOutcome::WriteToNetwork(n) => self == SessionReply::WriteToNetwork(n),
            TunnOutcome::WriteToTunnelV4(n, a) => self == SessionReply::WriteToTunnelV4(n, a),
            TunnOutcome::WriteToTunnelV6(n, a) => self == SessionReply::WriteToTunnelV6(n, a),
        }
    }

    /// The bytes that the reply speaks of fit the buffer.
    pub open spec fn fits(self, buf_len: nat) -> bool {
        match self {
            SessionReply::Done => true,
            SessionReply::Refused(_) => true,
            SessionReply::WriteToNetwork(n) => n <= buf_len,
            SessionReply::WriteToTunnelV4(n, _) => n <= buf_len,
            SessionReply::WriteToTunnelV6(n, _) => n <= buf_len,
        }
    }

    /// The reply hands a packet to the local interface.
    pub open spec fn for_tunnel(self) -> bool {
        self is WriteToTunnelV4 || self is WriteToTunnelV6
    }
}

/// Why a session refused, as far as the library tells refusals apart.
#[derive(Clone, Copy, Debug, PartialEq, Eq, Structural)]
pub enum WireGuardFault {
    /// The session gave up after too long without a completed handshake.
    ConnectionExpired,
    /// A data message came for which the session has no keys.
    NoCurrentSession,
    /// Any other refusal.
    Other,
}

/// Tells the refusals of `boringtun` apart.
#[verifier::external_body]
pub(crate) fn fault_of(e: &WireGuardError) -> WireGuardFault {
    match e {
        WireGuardError::ConnectionExpired => WireGuardFault::ConnectionExpired,
        WireGuardError::NoCurrentSession => WireGuardFault::NoCurrentSession,
        _ => WireGuardFault::Other,
    }
}

/// The outcome with its refusal told apart.
pub(crate) fn settle(outcome: TunnOutcome) -> (r: SessionReply)
    ensures
        r.settles(outcome),
{
    match outcome {
        TunnOutcome::Done => SessionReply::Done,
        TunnOutcome::Refused(e) => SessionReply::Refused(fault_of(&e)),
        TunnOutcome::WriteToNetwork(n) => SessionReply::WriteToNetwork(n),
        TunnOutcome::WriteToTunnelV4(n, a) => SessionReply::WriteToTunnelV4(n, a),
        TunnOutcome::WriteToTunnelV6(n, a) => SessionReply::WriteToTunnelV6(n, a),
    }
}

/// `PublicKey::from(&StaticSecret)`: the public key of a private key.
#[verifier::external_body]
pub(crate) fn public_key_of(private_key: &[u8; 32]) -> (public_key: [u8; 32])
    ensures
        public_key@ == x25519_public_key(private_key@),
{
    PublicKey::from(&StaticSecret::from(*private_key)).to_bytes()
}

/// `RateLimiter::new`: a handshake rate limiter for the holder of
/// `public_key`. It draws its secrets at random.
#[verifier::external_body]
pub(crate) fn rate_limiter_new(public_key: &[u8; 32], limit: u64) -> Arc<RateLimiter> {
    Arc::new(RateLimiter::new(&PublicKey::from(*public_key), limit))
}

/// `Arc::clone`: one more handle on the same limiter.
#[verifier::external_body]
pub(crate) fn rate_limiter_share(limiter: &Arc<RateLimiter>) -> (shared: Arc<RateLimiter>)
    ensures
        shared == *limiter,
{
    limiter.clone()
}

/// `RateLimiter::reset_count`: starts a new counting period if the
/// current one is over.
#[verifier::external_body]
pub(crate) fn rate_limiter_reset(limiter: &Arc<RateLimiter>) {
    limiter.reset_count()
}

/// `Tunn::new`: a session with the holder of `peer_public_key`. It holds
/// no packet back.
#[verifier::external_body]
pub(crate) fn tunn_new(
    private_key: &[u8; 32],
    peer_public_key: &[u8; 32],
    preshared_key: &[u8; 32],
    persistent_keepalive: Option<u16>,
    index: u32,
    limiter: &Arc<RateLimiter>,
) -> (t: Tunn)
    ensures
        tunn_queued(t) == Set::<Seq<u8>>::empty(),
{
    Tunn::new(
        StaticSecret::from(*private_key),
        PublicKey::from(*peer_public_key),
        Some(*preshared_key),
        persistent_keepalive,
        index,
        Some(limiter.clone()),
    )
}

/// `Tunn::encapsulate`: wraps `src` for the peer. The answer is a message
/// at the start of `dst`, nothing, or a refusal; without keys the session
/// may keep `src` for later.
#[verifier::external_body]
pub(crate) fn tunn_encapsulate(t: &mut Tunn, src: &[u8], dst: &mut Vec<u8>) -> (r: TunnOutcome)
    requires
        old(dst)@.len() >= src@.len() + DATA_OVERHEAD,
        old(dst)@.len() >= HANDSHAKE_INIT_SIZE,
    ensures
        final(dst)@.len() == old(dst)@.len(),
        r.fits(final(dst)@.len()),
        !r.for_tunnel(),
        tunn_queued(*final(t)).subset_of(tunn_queued(*old(t)).insert(src@)),
{
    match t.encapsulate(src, dst.as_mut_slice()) {
        TunnResult::Done => TunnOutcome::Done,
        TunnResult::Err(e) => TunnOutcome::Refused(e),
        TunnResult::WriteToNetwork(p) => TunnOutcome::WriteToNetwork(p.len()),
        TunnResult::WriteToTunnelV4(p, a) => TunnOutcome::WriteToTunnelV4(p.len(), a.into()),
        TunnResult::WriteToTunnelV6(p, a) => TunnOutcome::WriteToTunnelV6(p.len(), a.into()),
    }
}

/// `Tunn::decapsulate`, without a source address: takes a datagram from
/// the peer, or, for an empty `src`, sends what the session held back.
/// The answer lies at the start of `dst`; the session takes up no new
/// packet to hold back; asked for what it held back when it holds
/// nothing back, it has nothing to do.
#[verifier::external_body]
pub(crate) fn tunn_decapsulate(t: &mut Tunn, src: &[u8], dst: &mut Vec<u8>) -> (r: TunnOutcome)
    requires
        old(dst)@.len() >= src@.len(),
        old(dst)@.len() >= COOKIE_REPLY_SIZE,
        forall|p: Seq<u8>| #[trigger]
            tunn_queued(*old(t)).contains(p) ==> old(dst)@.len() >= p.len() + DATA_OVERHEAD,
    ensures
        final(dst)@.len() == old(dst)@.len(),
        r.fits(final(dst)@.len()),
        tunn_queued(*final(t)).subset_of(tunn_queued(*old(t))),
        src@.len() == 0 && tunn_queued(*old(t)) == Set::<Seq<u8>>::empty() ==> r is Done,
{
    match t.decapsulate(None, src, dst.as_mut_slice()) {
        TunnResult::Done => TunnOutcome::Done,
        TunnResult::Err(e) => TunnOutcome::Refused(e),
        TunnResult::WriteToNetwork(p) => TunnOutcome::WriteToNetwork(p.len()),
        TunnResult::WriteToTunnelV4(p, a) => TunnOutcome::WriteToTunnelV4(p.len(), a.into()),
        TunnResult::WriteToTunnelV6(p, a) => TunnOutcome::WriteToTunnelV6(p.len(), a.into()),
    }
}

/// `Tunn::update_timers`: lets the session act on the time that has
/// passed. The answer is a handshake or keepalive message at the start of
/// `dst`, nothing, or a refusal; the only packet the session may newly
/// hold back is the empty one.
#[verifier::external_body]
pub(crate) fn tunn_update_timers(t: &mut Tunn, dst: &mut Vec<u8>) -> (r: TunnOutcome)
    requires
        old(dst)@.len() >= HANDSHAKE_INIT_SIZE,
    ensures
        final(dst)@.len() == old(dst)@.len(),
        r.fits(final(dst)@.len()),
        !r.for_tunnel(),
        tunn_queued(*final(t)).subset_of(tunn_queued(*old(t)).insert(Seq::empty())),
{
    match t.update_timers(dst.as_mut_slice()) {
        TunnResult::Done => TunnOutcome::Done,
        TunnResult::Err(e) => TunnOutcome::Refused(e),
        TunnResult::WriteToNetwork(p) => TunnOutcome::WriteToNetwork(p.len()),
        TunnResult::WriteToTunnelV4(p, a) => TunnOutcome::WriteToTunnelV4(p.len(), a.into()),
        TunnResult::WriteToTunnelV6(p, a) => TunnOutcome::WriteToTunnelV6(p.len(), a.into()),
    }
}

} // verus!
