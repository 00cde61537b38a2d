//! Error taxonomy of the mesh core.
//!
//! Every failure a caller can see is one of these values.  Dial and send
//! failures are recoverable (try another transport or retry later); a closed
//! channel is fatal to one connection only; `NoRoute` is the terminal outcome
//! of a single `send` call when no transport reaches the peer.

use vstd::prelude::*;

verus! {

/// Why establishing an outbound session failed.
#[derive(Clone, Copy, Debug, PartialEq, Eq, Structural)]
pub enum DialError {
    /// The target address could not be parsed.
    AddrParse,
    /// The transport-level handshake failed.
    Handshake,
    /// Some other transport I/O error.
    Io,
}

/// Why transmitting a payload over an established connection failed.
#[derive(Clone, Copy, Debug, PartialEq, Eq, Structural)]
pub enum SendError {
    /// Mid-transmission I/O failure; the caller must not assume any bytes
    /// arrived.
    Io,
}

/// Why receiving the next payload from a connection failed.
#[derive(Clone, Copy, Debug, PartialEq, Eq, Structural)]
pub enum RecvError {
    /// The producing side of this connection is gone.
    ChannelClosed,
}

/// Failure of a whole mesh-level operation.
#[derive(Clone, Copy, Debug, PartialEq, Eq, Structural)]
pub enum MeshError {
    /// No transport or path reaches the peer, or every attempt failed.
    NoRoute,
    /// A dial attempt failed.
    Dial(DialError),
    /// A transmission failed.
    Send(SendError),
    /// The connection's upstream producer is gone.
    ChannelClosed,
}

impl MeshError {
    /// A short human-readable description.
    pub fn describe(&self) -> (r: &'static str)
        ensures
            self is NoRoute ==> r@ == "no route available via any link"@,
            self is Dial ==> r@ == "dial failed"@,
            self is Send ==> r@ == "send failed"@,
            self is ChannelClosed ==> r@ == "channel closed"@,
    {
        match self {
            MeshError::NoRoute => "no route available via any link",
            MeshError::Dial(_) => "dial failed",
            MeshError::Send(_) => "send failed",
            MeshError::ChannelClosed => "channel closed",
        }
    }
}

} // verus!
