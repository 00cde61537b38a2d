//! The multi-link manager: transport choice by priority, with failover.
//!
//! The manager owns the peer directory, up to one link per transport, a
//! static bootstrap list, and an ordered transport priority.  A `send`
//! walks the priority order; transports the peer has no address for (or
//! that are not configured) are skipped, a failed dial or transmission
//! moves on to the next transport, and only when every prioritized
//! transport has been exhausted does the whole operation fail — with
//! `NoRoute`, the same terminal error an unknown peer gets.

use vstd::prelude::*;

use crate::addr::{format_addr, NetAddr};
use crate::discovery::lossy_string;
use crate::errors::MeshError;
use crate::link::{Link, LinkConnection};
use crate::peer::{LinkType, PeerID, PeerInfo, PeerInfoV, PeerStore};

verus! {

/// Whether the peer's record holds an address for this transport.
pub open spec fn has_addr(info: PeerInfoV, lt: LinkType) -> bool {
    match lt {
        LinkType::Wifi => info.wifi_addr is Some,
        LinkType::Ble => info.ble_addr is Some,
    }
}

/// The first transport in priority order the peer has an address for.
pub open spec fn spec_pick(info: PeerInfoV, prio: Seq<LinkType>) -> Option<LinkType>
    decreases prio.len(),
{
    if prio.len() == 0 {
        None
    } else if has_addr(info, prio[0]) {
        Some(prio[0])
    } else {
        spec_pick(info, prio.drop_first())
    }
}

/// The record a bootstrap entry seeds: reachable over the IP transport
/// with placeholder quality figures, so at least one route exists before
/// discovery has produced anything.
pub open spec fn bootstrap_info(id: Seq<char>, addr: NetAddr, now: u64) -> PeerInfoV {
    PeerInfoV {
        id: id,
        wifi_addr: Some(addr),
        ble_addr: None,
        last_seen: now,
        rtt_ms: Some(0),
        mtu: Some(1500),
        loss_percent: Some(0),
    }
}

/// The directory after seeding every bootstrap entry, in order
/// (last-write-wins applies among duplicate identities).
pub open spec fn spec_bootstrap(
    m: Map<Seq<char>, PeerInfoV>,
    bs: Seq<(Seq<char>, NetAddr)>,
    now: u64,
) -> Map<Seq<char>, PeerInfoV>
    decreases bs.len(),
{
    if bs.len() == 0 {
        m
    } else {
        spec_bootstrap(
            m.insert(bs[0].0, bootstrap_info(bs[0].0, bs[0].1, now)),
            bs.drop_first(),
            now,
        )
    }
}

proof fn lemma_bootstrap_push(
    m: Map<Seq<char>, PeerInfoV>,
    bs: Seq<(Seq<char>, NetAddr)>,
    x: (Seq<char>, NetAddr),
    now: u64,
)
    ensures
        spec_bootstrap(m, bs.push(x), now) == spec_bootstrap(m, bs, now).insert(
            x.0,
            bootstrap_info(x.0, x.1, now),
        ),
    decreases bs.len(),
{
    let e = bs.push(x);
    if bs.len() == 0 {
        assert(e[0] == x);
        assert(e.drop_first() =~= Seq::<(Seq<char>, NetAddr)>::empty());
        let m1 = m.insert(x.0, bootstrap_info(x.0, x.1, now));
        assert(spec_bootstrap(m, e, now) == spec_bootstrap(m1, e.drop_first(), now));
        assert(spec_bootstrap(m1, e.drop_first(), now) == m1);
        assert(spec_bootstrap(m, bs, now) == m);
    } else {
        assert(e[0] == bs[0]);
        assert(e.drop_first() =~= bs.drop_first().push(x));
        let m1 = m.insert(bs[0].0, bootstrap_info(bs[0].0, bs[0].1, now));
        lemma_bootstrap_push(m1, bs.drop_first(), x, now);
        assert(spec_bootstrap(m, e, now) == spec_bootstrap(m1, e.drop_first(), now));
        assert(spec_bootstrap(m, bs, now) == spec_bootstrap(m1, bs.drop_first(), now));
    }
}

/// The multi-link manager.  Generic over the two transports' link
/// implementations; either slot may be left unconfigured.
pub struct MultiLinkManager<W: Link, B: Link> {
    peer_store: PeerStore,
    wifi_link: Option<W>,
    ble_link: Option<B>,
    bootstraps: Vec<(PeerID, NetAddr)>,
    priority: Vec<LinkType>,
}

impl<W: Link, B: Link> MultiLinkManager<W, B> {
    /// The directory's contents.
    pub closed spec fn store(&self) -> Map<Seq<char>, PeerInfoV> {
        self.peer_store@
    }

    /// Whether the IP transport is configured.
    pub closed spec fn has_wifi(&self) -> bool {
        self.wifi_link is Some
    }

    /// Whether the constrained transport is configured.
    pub closed spec fn has_ble(&self) -> bool {
        self.ble_link is Some
    }

    /// The transport priority order.
    pub closed spec fn priority_spec(&self) -> Seq<LinkType> {
        self.priority@
    }

    /// The bootstrap list.
    pub closed spec fn bootstraps_spec(&self) -> Seq<(Seq<char>, NetAddr)> {
        self.bootstraps@.map_values(|p: (PeerID, NetAddr)| (p.0@, p.1))
    }

    /// The manager's invariant: its directory is well formed.
    pub closed spec fn wf(&self) -> bool {
        self.peer_store.wf()
    }

    /// A transport is worth attempting for this peer: the peer has an
    /// address on it and a link is configured for it.
    pub open spec fn applicable(&self, info: PeerInfoV, lt: LinkType) -> bool {
        match lt {
            LinkType::Wifi => info.wifi_addr is Some && self.has_wifi(),
            LinkType::Ble => info.ble_addr is Some && self.has_ble(),
        }
    }

    /// A manager over the given links, bootstrap list and priority order,
    /// with an empty directory.
    pub fn new(
        wifi_link: Option<W>,
        ble_link: Option<B>,
        bootstraps: Vec<(PeerID, NetAddr)>,
        priority: Vec<LinkType>,
    ) -> (r: Self)
        ensures
            r.wf(),
            r.store() == Map::<Seq<char>, PeerInfoV>::empty(),
            r.has_wifi() == (wifi_link is Some),
            r.has_ble() == (ble_link is Some),
            r.priority_spec() == priority@,
            r.bootstraps_spec() == bootstraps@.map_values(|p: (PeerID, NetAddr)| (p.0@, p.1)),
    {
        MultiLinkManager {
            peer_store: PeerStore::default(),
            wifi_link,
            ble_link,
            bootstraps,
            priority,
        }
    }

    /// Seeds the directory with every bootstrap peer, marking each as
    /// reachable over the IP transport with placeholder quality figures.
    pub fn bootstrap_peers(&mut self, now: u64)
        requires
            old(self).wf(),
        ensures
            final(self).wf(),
            final(self).store() == spec_bootstrap(
                old(self).store(),
                old(self).bootstraps_spec(),
                now,
            ),
            final(self).has_wifi() == old(self).has_wifi(),
            final(self).has_ble() == old(self).has_ble(),
            final(self).priority_spec() == old(self).priority_spec(),
            final(self).bootstraps_spec() == old(self).bootstraps_spec(),
    {
        let ghost bs = old(self).bootstraps_spec();
        let n = self.bootstraps.len();
        let mut i: usize = 0;
        while i < n
            invariant
                i <= n,
                n == self.bootstraps@.len(),
                self.peer_store.wf(),
                self.bootstraps == old(self).bootstraps,
                self.wifi_link == old(self).wifi_link,
                self.ble_link == old(self).ble_link,
                self.priority == old(self).priority,
                bs == self.bootstraps_spec(),
                bs.len() == n,
                self.peer_store@ == spec_bootstrap(
                    old(self).peer_store@,
                    bs.subrange(0, i as int),
                    now,
                ),
            decreases n - i,
        {
            let id = self.bootstraps[i].0.clone();
            let addr = self.bootstraps[i].1;
            let info = PeerInfo {
                id: id,
                wifi_addr: Some(addr),
                ble_addr: None,
                last_seen: now,
                rtt_ms: Some(0),
                mtu: Some(1500),
                loss_percent: Some(0),
            };
            proof {
                assert(info@ == bootstrap_info(bs[i as int].0, bs[i as int].1, now));
            }
            self.peer_store.update_store(info);
            proof {
                lemma_bootstrap_push(
                    old(self).peer_store@,
                    bs.subrange(0, i as int),
                    bs[i as int],
                    now,
                );
                assert(bs.subrange(0, i + 1) =~= bs.subrange(0, i as int).push(bs[i as int]));
            }
            i = i + 1;
        }
        proof {
            assert(bs.subrange(0, n as int) =~= bs);
        }
    }

    /// Writes one peer record into the directory (last-write-wins), as
    /// connection-quality feedback or a discovery listener would.
    pub fn update_peer(&mut self, info: PeerInfo)
        requires
            old(self).wf(),
        ensures
            final(self).wf(),
            final(self).store() == old(self).store().insert(info@.id, info@),
            final(self).has_wifi() == old(self).has_wifi(),
            final(self).has_ble() == old(self).has_ble(),
            final(self).priority_spec() == old(self).priority_spec(),
            final(self).bootstraps_spec() == old(self).bootstraps_spec(),
    {
        self.peer_store.update_store(info);
    }

    /// Read access to the directory, for diagnostics and snapshots.
    pub fn peers(&self) -> (r: &PeerStore)
        ensures
            r@ == self.store(),
            r.wf() == self.wf(),
    {
        &self.peer_store
    }

    /// Advisory metadata: the first transport in priority order the peer
    /// has an address for; nothing when the peer is unknown or has no
    /// address on any prioritized transport.
    pub fn pick_best_link(&self, peer_id: &PeerID) -> (r: Option<LinkType>)
        requires
            self.wf(),
        ensures
            !self.store().dom().contains(peer_id@) ==> r is None,
            self.store().dom().contains(peer_id@) ==> r == spec_pick(
                self.store()[peer_id@],
                self.priority_spec(),
            ),
    {
        let info = match self.peer_store.get_peer(peer_id.clone()) {
            Some(p) => p,
            None => {
                return None;
            },
        };
        let ghost prio = self.priority@;
        proof {
            assert(prio.subrange(0, prio.len() as int) =~= prio);
        }
        let n = self.priority.len();
        let mut i: usize = 0;
        while i < n
            invariant
                i <= n,
                n == prio.len(),
                prio == self.priority@,
                prio == self.priority_spec(),
                self.store().dom().contains(peer_id@),
                info@ == self.store()[peer_id@],
                spec_pick(info@, prio.subrange(i as int, n as int)) == spec_pick(info@, prio),
            decreases n - i,
        {
            let ghost rest = prio.subrange(i as int, n as int);
            proof {
                assert(rest[0] == prio[i as int]);
                assert(rest.drop_first() =~= prio.subrange(i + 1, n as int));
            }
            match self.priority[i] {
                LinkType::Wifi => {
                    if info.wifi_addr.is_some() {
                        proof {
                            assert(has_addr(info@, rest[0]));
                            assert(spec_pick(info@, rest) == Some(rest[0]));
                        }
                        return Some(LinkType::Wifi);
                    }
                },
                LinkType::Ble => {
                    if info.ble_addr.is_some() {
                        proof {
                            assert(has_addr(info@, rest[0]));
                            assert(spec_pick(info@, rest) == Some(rest[0]));
                        }
                        return Some(LinkType::Ble);
                    }
                },
            }
            i = i + 1;
        }
        None
    }

    /// Sends a payload to a peer, failing over across transports.
    ///
    /// An unknown peer is `NoRoute` at once (no dial is attempted).
    /// Otherwise each transport in priority order is tried: a missing
    /// address or unconfigured link skips the transport, a failed dial or
    /// transmission moves to the next one, and the first successful
    /// transmission ends the operation.  When nothing succeeds the result
    /// is `NoRoute` — the only error this method returns.
    pub fn send(&self, peer_id: &PeerID, data: &[u8]) -> (r: Result<(), MeshError>)
        requires
            self.wf(),
        ensures
            !self.store().dom().contains(peer_id@) ==> r == Err::<(), MeshError>(
                MeshError::NoRoute,
            ),
            r is Err ==> r == Err::<(), MeshError>(MeshError::NoRoute),
            r is Ok ==> self.store().dom().contains(peer_id@) && (exists|i: int|
                0 <= i < self.priority_spec().len() && self.applicable(
                    self.store()[peer_id@],
                    #[trigger] self.priority_spec()[i],
                )),
            (self.store().dom().contains(peer_id@) && (forall|i: int|
                0 <= i < self.priority_spec().len() ==> !self.applicable(
                    self.store()[peer_id@],
                    #[trigger] self.priority_spec()[i],
                ))) ==> r == Err::<(), MeshError>(MeshError::NoRoute),
    {
        let info = match self.peer_store.get_peer(peer_id.clone()) {
            Some(p) => p,
            None => {
                return Err(MeshError::NoRoute);
            },
        };
        let n = self.priority.len();
        let mut i: usize = 0;
        while i < n
            invariant
                i <= n,
                n == self.priority@.len(),
                n == self.priority_spec().len(),
                self.store().dom().contains(peer_id@),
                info@ == self.store()[peer_id@],
            decreases n - i,
        {
            match self.priority[i] {
                LinkType::Wifi => {
                    if let Some(addr) = info.wifi_addr {
                        if let Some(link) = &self.wifi_link {
                            let addr_bytes = format_addr(&addr);
                            let addr_str = lossy_string(addr_bytes.as_slice());
                            match link.dial(addr_str.as_str()) {
                                Ok(conn) => {
                                    match conn.send(data) {
                                        Ok(_) => {
                                            proof {
                                                assert(self.applicable(
                                                    self.store()[peer_id@],
                                                    self.priority_spec()[i as int],
                                                ));
                                            }
                                            return Ok(());
                                        },
                                        Err(_) => {
                                            // transmission failed: try the next transport
                                        },
                                    }
                                },
                                Err(_) => {
                                    // dial failed on this transport: try the next one
                                },
                            }
                        }
                    }
                },
                LinkType::Ble => {
                    if let Some(addr) = &info.ble_addr {
                        if let Some(link) = &self.ble_link {
                            match link.dial(addr.as_str()) {
                                Ok(conn) => {
                                    match conn.send(data) {
                                        Ok(_) => {
                                            proof {
                                                assert(self.applicable(
                                                    self.store()[peer_id@],
                                                    self.priority_spec()[i as int],
                                                ));
                                            }
                                            return Ok(());
                                        },
                                        Err(_) => {},
                                    }
                                },
                                Err(_) => {},
                            }
                        }
                    }
                },
            }
            i = i + 1;
        }
        // every prioritized transport was exhausted
        Err(MeshError::NoRoute)
    }
}

} // verus!
