//! The single-transport routing layer.
//!
//! A reduced form of the multi-link manager for the configuration with
//! one fixed transport: look the peer up, and if it has an address on the
//! one configured transport, dial and send.  When the peer is unknown or
//! has no address, this layer deliberately succeeds without sending —
//! the asymmetry with the manager's `NoRoute` is intentional and kept as
//! a distinct entry point.

use vstd::prelude::*;

use crate::addr::format_addr;
use crate::discovery::lossy_string;
use crate::errors::MeshError;
use crate::link::{Link, LinkConnection};
use crate::peer::{PeerID, PeerInfo, PeerInfoV, PeerStore};

verus! {

/// The routing layer: one link, and the peer directory.
pub struct RoutingLayer<L: Link> {
    link: L,
    peer_store: PeerStore,
}

impl<L: Link> RoutingLayer<L> {
    /// The directory's contents.
    pub closed spec fn store(&self) -> Map<Seq<char>, PeerInfoV> {
        self.peer_store@
    }

    /// The routing layer's invariant: its directory is well formed.
    pub closed spec fn wf(&self) -> bool {
        self.peer_store.wf()
    }

    /// A routing layer over the given link and directory.
    pub fn new(link: L, peer_store: PeerStore) -> (r: Self)
        ensures
            r.store() == peer_store@,
            r.wf() == peer_store.wf(),
    {
        RoutingLayer { link, peer_store }
    }

    /// Writes one peer record into the directory (last-write-wins), as a
    /// discovery listener would.
    pub fn update_peer(&mut self, info: PeerInfo)
        requires
            old(self).wf(),
        ensures
            final(self).wf(),
            final(self).store() == old(self).store().insert(info@.id, info@),
    {
        self.peer_store.update_store(info);
    }

    /// Read access to the directory, for diagnostics and snapshots.
    pub fn peers(&self) -> (r: &PeerStore)
        ensures
            r@ == self.store(),
            r.wf() == self.wf(),
    {
        &self.peer_store
    }

    /// Sends a payload to a peer over the one configured transport.
    ///
    /// When the peer is unknown, or known without an address on this
    /// transport, the call succeeds without sending anything.  Only an
    /// actual attempt can fail, and then with the dial or send failure —
    /// never with `NoRoute`.
    pub fn send(&self, peer_id: PeerID, data: &[u8]) -> (r: Result<(), MeshError>)
        requires
            self.wf(),
        ensures
            !self.store().dom().contains(peer_id@) ==> r == Ok::<(), MeshError>(()),
            self.store().dom().contains(peer_id@) && self.store()[peer_id@].wifi_addr is None
                ==> r == Ok::<(), MeshError>(()),
            r is Err ==> self.store().dom().contains(peer_id@)
                && self.store()[peer_id@].wifi_addr is Some,
            r != Err::<(), MeshError>(MeshError::NoRoute),
    {
        let ghost key = peer_id@;
        let info = match self.peer_store.get_peer(peer_id) {
            Some(p) => p,
            None => {
                return Ok(());
            },
        };
        if let Some(addr) = info.wifi_addr {
            let addr_bytes = format_addr(&addr);
            let addr_str = lossy_string(addr_bytes.as_slice());
            match self.link.dial(addr_str.as_str()) {
                Ok(conn) => match conn.send(data) {
                    Ok(_) => Ok(()),
                    Err(e) => Err(MeshError::Send(e)),
                },
                Err(e) => Err(MeshError::Dial(e)),
            }
        } else {
            Ok(())
        }
    }
}

} // verus!
