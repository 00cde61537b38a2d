//! The transport-agnostic link abstraction.
//!
//! A [`Link`] is the capability one transport offers: dial a peer, accept
//! an inbound session, and report frame-size and latency metadata.  A
//! [`LinkConnection`] is one established bidirectional session.  Each
//! transport implements these once, outside this crate — the
//! implementations do I/O, so nothing is promised of their outcomes
//! here; the routing code is verified to handle every outcome.

use vstd::prelude::*;

use crate::errors::{DialError, RecvError, SendError};

verus! {

/// The contract every transport implements and the manager codes against.
pub trait Link {
    /// One established session over this transport.
    type Conn: LinkConnection;

    /// Establishes an outbound session to a transport-specific address
    /// string.  Every failure is recoverable by trying another transport
    /// or peer, never fatal to the process.
    fn dial(&self, address: &str) -> Result<Self::Conn, DialError>;

    /// Waits for an inbound session; fails when the transport is
    /// permanently closed.
    fn accept(&self) -> Result<Self::Conn, DialError>;

    /// The maximum single-frame payload this transport can carry.
    fn mtu(&self) -> usize;

    /// An estimated latency in milliseconds; selection metadata only,
    /// never a correctness input.
    fn latency(&self) -> u64;
}

/// A single active connection over a link.
pub trait LinkConnection {
    /// Transmits one full logical payload.  On failure the caller must
    /// not assume any bytes arrived (frames already written are not
    /// rolled back).
    fn send(&self, data: &[u8]) -> Result<(), SendError>;

    /// Yields the next complete logical payload, or fails with
    /// `ChannelClosed` when the producing side is gone.
    fn receive(&self) -> Result<Vec<u8>, RecvError>;
}

} // verus!
