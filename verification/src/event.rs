//! What the data plane tells the application, and what it asks of
//! whoever owns the device, the transports and the clocks.

use crate::error::{Error, TransportFault};
use crate::peer::{ConnId, PendingPacket};
use crate::resource::ResourceDescription;
use vstd::prelude::*;

verus! {

/// The name of a transport channel, as its owner chose it.
pub type ChannelId = u64;

/// A candidate for a connection to a peer, to be signalled to it.
#[derive(Debug)]
pub struct IceCandidate {
    pub candidate: String,
    pub sdp_mid: Option<String>,
    pub sdp_mline_index: Option<u16>,
    pub username_fragment: Option<String>,
}

/// A DNS query that was intercepted on its way into the tunnel.
#[derive(Debug)]
pub struct DnsQuery {
    pub name: String,
    /// The number of the record type that is asked for.
    pub record_type: u16,
    /// The packet that carried the query; a response is built from it.
    pub query: Vec<u8>,
}

impl DnsQuery {
    /// The query with a buffer of its own for the packet.
    pub fn into_owned(self) -> (r: DnsQuery)
        ensures
            r.name == self.name,
            r.record_type == self.record_type,
            r.query@ == self.query@,
    {
        let DnsQuery { name, record_type, query } = self;
        let buf = vstd::slice::slice_to_vec(query.as_slice());
        DnsQuery { name, record_type, query: buf }
    }
}

/// What the application has to act on.
#[derive(Debug)]
pub enum Event {
    /// Signal a connection candidate to a peer.
    SignalIceCandidate { conn_id: ConnId, candidate: IceCandidate },
    /// Traffic wants to reach a resource that no peer serves yet.
    ConnectionIntent { resource: ResourceDescription, connected_gateway_ids: Vec<ConnId>, reference: usize },
    /// Resolve an intercepted DNS query.
    DnsQuery(DnsQuery),
}

/// Work that the library hands to the owner of the transports and the
/// device. None of it is waited for.
pub enum Action {
    /// Send `bytes` to a peer over its channel. A failure to send is to
    /// come back through [`on_transmit_failed`].
    Transmit { conn_id: ConnId, channel: ChannelId, bytes: Vec<u8> },
    /// Close a peer's channel.
    CloseChannel { conn_id: ConnId, channel: ChannelId },
    /// Close the connection that carried a peer's channel.
    CloseConnection { conn_id: ConnId },
    /// Ask the device for its packet size again.
    RefreshMtu,
    /// Tell the application of an error that the library has dealt with.
    ReportError(Error),
    /// Resolve a name for a packet that a peer sent, then hand packet and
    /// addresses back.
    Resolve { conn_id: ConnId, pending: PendingPacket },
}

/// An [`Action`] with bytes as plain sequences.
pub enum ActionView {
    Transmit { conn_id: ConnId, channel: ChannelId, bytes: Seq<u8> },
    CloseChannel { conn_id: ConnId, channel: ChannelId },
    CloseConnection { conn_id: ConnId },
    RefreshMtu,
    ReportError(Error),
    Resolve { conn_id: ConnId, host: Seq<char>, addr: crate::ip::IpAddress, packet: Seq<u8> },
}

impl View for Action {
    type V = ActionView;

    open spec fn view(&self) -> ActionView {
        match self {
            Action::Transmit { conn_id, channel, bytes } => ActionView::Transmit {
                conn_id: *conn_id,
                channel: *channel,
                bytes: bytes@,
            },
            Action::CloseChannel { conn_id, channel } => ActionView::CloseChannel {
                conn_id: *conn_id,
                channel: *channel,
            },
            Action::CloseConnection { conn_id } => ActionView::CloseConnection { conn_id: *conn_id },
            Action::RefreshMtu => ActionView::RefreshMtu,
            Action::ReportError(e) => ActionView::ReportError(*e),
            Action::Resolve { conn_id, pending } => ActionView::Resolve {
                conn_id: *conn_id,
                host: pending.host@,
                addr: pending.addr,
                packet: pending.packet@,
            },
        }
    }
}

/// How a timer is to run.
#[derive(Clone, Copy, Debug, PartialEq, Eq, Structural)]
pub struct IntervalSpec {
    /// Seconds from one tick to the next.
    pub period_secs: u64,
    /// Whether a tick that comes late delays the ticks after it, in
    /// place of a burst of ticks to catch up.
    pub delay_missed_ticks: bool,
}

/// What has come up since the library was last asked for an event. The
/// owner of the clocks and transports sets these; the library takes them
/// up in its own order and clears what it has dealt with.
pub struct Signals {
    /// The timer of [`rate_limit_reset_interval`] has ticked.
    pub rate_limit_reset: bool,
    /// The timer of [`peer_refresh_interval`] has ticked.
    pub peer_refresh: bool,
    /// The timer of [`mtu_refresh_interval`] has ticked.
    pub mtu_refresh: bool,
    /// Peers that are to be stopped, oldest request first.
    pub stop_requests: std::collections::VecDeque<ConnId>,
}

/// [`Signals`] as plain values.
pub struct SignalsState {
    pub rate_limit_reset: bool,
    pub peer_refresh: bool,
    pub mtu_refresh: bool,
    pub stop_requests: Seq<ConnId>,
}

impl SignalsState {
    /// How much there is to take up.
    pub open spec fn pending(self) -> nat {
        (if self.rate_limit_reset {
            1nat
        } else {
            0nat
        }) + (if self.peer_refresh {
            1nat
        } else {
            0nat
        }) + (if self.mtu_refresh {
            1nat
        } else {
            0nat
        }) + self.stop_requests.len()
    }
}

impl View for Signals {
    type V = SignalsState;

    open spec fn view(&self) -> SignalsState {
        SignalsState {
            rate_limit_reset: self.rate_limit_reset,
            peer_refresh: self.peer_refresh,
            mtu_refresh: self.mtu_refresh,
            stop_requests: self.stop_requests@,
        }
    }
}

impl Signals {
    /// Nothing has come up.
    pub fn new() -> (s: Signals)
        ensures
            !s.rate_limit_reset,
            !s.peer_refresh,
            !s.mtu_refresh,
            s.stop_requests@.len() == 0,
    {
        Signals {
            rate_limit_reset: false,
            peer_refresh: false,
            mtu_refresh: false,
            stop_requests: std::collections::VecDeque::new(),
        }
    }

    /// How much there is to take up.
    pub open spec fn pending(&self) -> nat {
        self@.pending()
    }
}

/// Takes note that a message could not be sent to peer `conn_id`. The
/// failure is the error to report; where it ends the connection, the
/// peer is asked to be stopped.
pub fn on_transmit_failed(signals: &mut Signals, conn_id: ConnId, fault: TransportFault) -> (report: Error)
    ensures
        report == Error::Transport(fault),
        final(signals)@ == (SignalsState {
            stop_requests: if report.fatal() {
                old(signals)@.stop_requests.push(conn_id)
            } else {
                old(signals)@.stop_requests
            },
            ..old(signals)@
        }),
{
    let report = Error::Transport(fault);
    if report.is_fatal_connection_error() {
        signals.stop_requests.push_back(conn_id);
    }
    report
}

/// The timer for starting a new period of counting handshakes: every
/// second.
pub fn rate_limit_reset_interval() -> (i: IntervalSpec)
    ensures
        i == (IntervalSpec { period_secs: 1, delay_missed_ticks: true }),
{
    IntervalSpec { period_secs: 1, delay_missed_ticks: true }
}

/// The timer for refreshing peers: every second. At each tick expired
/// grants go, emptied peers are stopped, and the sessions of the others
/// act on the time that has passed.
pub fn peer_refresh_interval() -> (i: IntervalSpec)
    ensures
        i == (IntervalSpec { period_secs: 1, delay_missed_ticks: true }),
{
    IntervalSpec { period_secs: 1, delay_missed_ticks: true }
}

/// The timer for asking the device for its packet size: every thirty
/// seconds.
pub fn mtu_refresh_interval() -> (i: IntervalSpec)
    ensures
        i == (IntervalSpec { period_secs: 30, delay_missed_ticks: true }),
{
    IntervalSpec { period_secs: 30, delay_missed_ticks: true }
}

} // verus!
