//! What can go wrong in the data plane.

use crate::noise::WireGuardFault;
use vstd::prelude::*;

verus! {

/// A failure of the device, as far as the library tells failures apart.
#[derive(Clone, Copy, Debug, PartialEq, Eq, Structural)]
pub enum IoError {
    /// The device handed over bytes that are no IP packet.
    InvalidInput,
    /// The operating system refused; the number is its error code.
    Os(i32),
}

/// A failure to send over a peer's channel, as far as the library tells
/// failures apart.
#[derive(Clone, Copy, Debug, PartialEq, Eq, Structural)]
pub enum TransportFault {
    /// The channel is closed; nothing will ever be sent over it again.
    StreamClosed,
    /// Any other failure.
    Other,
}

#[derive(Clone, Copy, Debug, PartialEq, Eq, Structural)]
pub enum Error {
    /// A translation points at a resource that has no name to resolve.
    ControlProtocolError,
    /// A resource's address could not be turned into a destination.
    InvalidResource,
    /// A packet's destination lies outside the resource it was sent for.
    InvalidSource,
    /// The session refused.
    WireguardError(WireGuardFault),
    /// The device failed.
    Io(IoError),
    /// A message could not be sent to a peer.
    Transport(TransportFault),
}

impl Error {
    /// Whether the error ends the connection it came from: the session
    /// expired or has no keys, or the channel is closed.
    pub open spec fn fatal(self) -> bool {
        ||| self == Error::WireguardError(WireGuardFault::ConnectionExpired)
        ||| self == Error::WireguardError(WireGuardFault::NoCurrentSession)
        ||| self == Error::Transport(TransportFault::StreamClosed)
    }

    /// Whether the error ends the connection it came from.
    pub fn is_fatal_connection_error(&self) -> (b: bool)
        ensures
            b == self.fatal(),
    {
        match self {
            Error::WireguardError(WireGuardFault::ConnectionExpired) => true,
            Error::WireguardError(WireGuardFault::NoCurrentSession) => true,
            Error::Transport(TransportFault::StreamClosed) => true,
            _ => false,
        }
    }
}

} // verus!
