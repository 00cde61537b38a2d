//! Core of a small mesh-networking runtime.
//!
//! Nodes discover each other over a multicast announcement protocol, keep a
//! shared directory of peers, and exchange byte payloads over whichever
//! transport currently reaches a peer, failing over between transports by
//! priority.  The constrained-MTU transport carries payloads through a
//! fragmentation protocol with sequence validation.
//!
//! All I/O (sockets, timers, the actual transports) lives outside this crate;
//! the modules here hold the data model, the wire formats and the routing
//! decisions, each with a verified contract.

pub mod addr;
pub mod args;
pub mod discovery;
pub mod errors;
pub mod fragment;
pub mod link;
pub mod multilink;
pub mod peer;
pub mod peripheral;
pub mod routing;
pub mod utils;
