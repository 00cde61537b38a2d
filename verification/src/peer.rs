//! The peer data model and the shared peer directory.
//!
//! The directory maps peer identities to their most recently learned
//! reachability record.  Its update policy is last-write-wins per peer
//! identity: a new record fully replaces the stored one, with no
//! field-level merging.  Entries are never evicted; staleness can be read
//! off `last_seen` but does not prune the table.

use vstd::prelude::*;

use crate::addr::NetAddr;

verus! {

/// One tag per configured transport.
#[derive(Clone, Copy, Debug, PartialEq, Eq, Hash, Structural)]
pub enum LinkType {
    Wifi,
    Ble,
}

/// Opaque, comparable, hashable string identity of a node.
#[derive(Debug, Hash, PartialEq, Eq)]
pub struct PeerID(pub String);

impl View for PeerID {
    type V = Seq<char>;

    open spec fn view(&self) -> Seq<char> {
        self.0@
    }
}

impl Clone for PeerID {
    fn clone(&self) -> (r: Self)
        ensures
            r == *self,
    {
        PeerID(self.0.clone())
    }
}

/// What a peer record is, mathematically: the identity and the optional
/// reachability and quality data, all as plain values.
pub struct PeerInfoV {
    pub id: Seq<char>,
    pub wifi_addr: Option<NetAddr>,
    pub ble_addr: Option<Seq<char>>,
    pub last_seen: u64,
    pub rtt_ms: Option<u32>,
    pub mtu: Option<usize>,
    pub loss_percent: Option<u32>,
}

/// One record per known peer.
///
/// Only the identity is always present; each transport address is
/// independently optional, and the quality figures (`rtt_ms`, `mtu`,
/// `loss_percent`, the latter in whole percent) may be unset.
#[derive(Debug)]
pub struct PeerInfo {
    pub id: PeerID,
    pub wifi_addr: Option<NetAddr>,
    pub ble_addr: Option<String>,
    pub last_seen: u64,
    pub rtt_ms: Option<u32>,
    pub mtu: Option<usize>,
    pub loss_percent: Option<u32>,
}

impl View for PeerInfo {
    type V = PeerInfoV;

    open spec fn view(&self) -> PeerInfoV {
        PeerInfoV {
            id: self.id@,
            wifi_addr: self.wifi_addr,
            ble_addr: match self.ble_addr {
                Some(s) => Some(s@),
                None => None,
            },
            last_seen: self.last_seen,
            rtt_ms: self.rtt_ms,
            mtu: self.mtu,
            loss_percent: self.loss_percent,
        }
    }
}

impl Clone for PeerInfo {
    fn clone(&self) -> (r: Self)
        ensures
            r@ == self@,
    {
        PeerInfo {
            id: self.id.clone(),
            wifi_addr: self.wifi_addr,
            ble_addr: match &self.ble_addr {
                Some(s) => Some(s.clone()),
                None => None,
            },
            last_seen: self.last_seen,
            rtt_ms: self.rtt_ms,
            mtu: self.mtu,
            loss_percent: self.loss_percent,
        }
    }
}

/// Whether some record in `s` has identity `id`.
pub open spec fn has_id(s: Seq<PeerInfoV>, id: Seq<char>) -> bool {
    exists|i: int| 0 <= i < s.len() && (#[trigger] s[i]).id == id
}

/// The index of the record with identity `id` (unique when ids are
/// distinct).
pub open spec fn idx_of(s: Seq<PeerInfoV>, id: Seq<char>) -> int {
    choose|i: int| 0 <= i < s.len() && (#[trigger] s[i]).id == id
}

/// All identities in `s` are distinct.
pub open spec fn distinct_ids(s: Seq<PeerInfoV>) -> bool {
    forall|i: int, j: int|
        0 <= i < j < s.len() ==> (#[trigger] s[i]).id != (#[trigger] s[j]).id
}

proof fn lemma_idx_of(s: Seq<PeerInfoV>, id: Seq<char>, i: int)
    requires
        distinct_ids(s),
        0 <= i < s.len(),
        s[i].id == id,
    ensures
        has_id(s, id),
        idx_of(s, id) == i,
{
    assert(has_id(s, id));
    let j = idx_of(s, id);
    assert(0 <= j < s.len() && s[j].id == id);
    if i != j {
        assert(s[i].id != s[j].id);
    }
}

/// The peer directory: a mapping from peer identity to that peer's record,
/// keys unique.  Viewed as a `Map` from identity to record.
#[derive(Debug)]
pub struct PeerStore {
    peers: Vec<PeerInfo>,
}

impl View for PeerStore {
    type V = Map<Seq<char>, PeerInfoV>;

    closed spec fn view(&self) -> Map<Seq<char>, PeerInfoV> {
        Map::new(
            |id: Seq<char>| has_id(self.infos(), id),
            |id: Seq<char>| self.infos()[idx_of(self.infos(), id)],
        )
    }
}

impl PeerStore {
    /// The stored records, in storage order.
    pub closed spec fn infos(&self) -> Seq<PeerInfoV> {
        self.peers@.map_values(|p: PeerInfo| p@)
    }

    /// The directory's invariant: one record per identity.
    pub open spec fn wf(&self) -> bool {
        distinct_ids(self.infos())
    }

    /// Finds the position of the record with the given identity.
    fn find_index(&self, id: &PeerID) -> (r: Option<usize>)
        requires
            self.wf(),
        ensures
            match r {
                Some(i) => i < self.infos().len() && self.infos()[i as int].id == id@,
                None => !has_id(self.infos(), id@),
            },
    {
        let n = self.peers.len();
        let mut i: usize = 0;
        while i < n
            invariant
                i <= n,
                n == self.infos().len(),
                self.wf(),
                forall|j: int| 0 <= j < i ==> (#[trigger] self.infos()[j]).id != id@,
            decreases n - i,
        {
            if self.peers[i].id.0 == id.0 {
                assert(self.infos()[i as int].id == id@);
                return Some(i);
            }
            assert(self.infos()[i as int].id != id@);
            i = i + 1;
        }
        None
    }

    /// Inserts or fully replaces the record for `info`'s identity
    /// (last-write-wins; no field-level merge).
    pub fn update_store(&mut self, info: PeerInfo)
        requires
            old(self).wf(),
        ensures
            final(self).wf(),
            final(self)@ == old(self)@.insert(info@.id, info@),
    {
        let ghost old_infos = self.infos();
        let ghost v = info@;
        let found = self.find_index(&info.id);
        match found {
            Some(i) => {
                proof {
                    lemma_idx_of(old_infos, v.id, i as int);
                }
                self.peers.remove(i);
                proof {
                    assert(self.infos() =~= old_infos.remove(i as int));
                    lemma_remove_keeps_others(old_infos, i as int);
                }
            },
            None => {},
        }
        let ghost mid_infos = self.infos();
        proof {
            // after the removal (if any), no stored record has this identity
            assert(forall|j: int|
                0 <= j < mid_infos.len() ==> (#[trigger] mid_infos[j]).id != v.id);
            assert(distinct_ids(mid_infos));
        }
        self.peers.push(info);
        proof {
            let new_infos = self.infos();
            assert(new_infos =~= mid_infos.push(v));
            assert forall|i: int, j: int|
                0 <= i < j < new_infos.len() implies (#[trigger] new_infos[i]).id != (
            #[trigger] new_infos[j]).id by {
                if j < mid_infos.len() {
                    assert(new_infos[i] == mid_infos[i] && new_infos[j] == mid_infos[j]);
                } else {
                    assert(new_infos[j] == v && new_infos[i] == mid_infos[i]);
                }
            }
            lemma_store_view_insert(old_infos, mid_infos, old(self)@, final(self)@, v);
        }
    }

    /// Looks up a peer by identity.
    pub fn get_peer(&self, id: PeerID) -> (r: Option<&PeerInfo>)
        requires
            self.wf(),
        ensures
            match r {
                Some(p) => self@.dom().contains(id@) && p@ == self@[id@],
                None => !self@.dom().contains(id@),
            },
    {
        let found = self.find_index(&id);
        match found {
            Some(i) => {
                proof {
                    lemma_idx_of(self.infos(), id@, i as int);
                }
                Some(&self.peers[i])
            },
            None => None,
        }
    }

    /// A point-in-time copy of every record: one per known identity,
    /// each exactly what the directory maps that identity to.
    pub fn get_all_peers(&self) -> (r: Vec<PeerInfo>)
        requires
            self.wf(),
        ensures
            r@.len() == self.infos().len(),
            forall|i: int|
                0 <= i < r@.len() ==> self@.dom().contains((#[trigger] r@[i])@.id)
                    && self@[r@[i]@.id] == r@[i]@,
            forall|k: Seq<char>|
                #[trigger] self@.dom().contains(k) ==> exists|i: int|
                    0 <= i < r@.len() && (#[trigger] r@[i])@.id == k,
            forall|i: int, j: int|
                0 <= i < j < r@.len() ==> (#[trigger] r@[i])@.id != (#[trigger] r@[j])@.id,
    {
        let n = self.peers.len();
        let mut out: Vec<PeerInfo> = Vec::new();
        let mut i: usize = 0;
        while i < n
            invariant
                i <= n,
                n == self.infos().len(),
                n == self.peers@.len(),
                out@.len() == i,
                forall|j: int| 0 <= j < i ==> (#[trigger] out@[j])@ == self.infos()[j],
            decreases n - i,
        {
            out.push(self.peers[i].clone());
            i = i + 1;
        }
        proof {
            assert forall|j: int|
                0 <= j < out@.len() implies self@.dom().contains((#[trigger] out@[j])@.id)
                && self@[out@[j]@.id] == out@[j]@ by {
                lemma_idx_of(self.infos(), self.infos()[j].id, j);
            }
            assert forall|k: Seq<char>| #[trigger] self@.dom().contains(k) implies exists|j: int|
                0 <= j < out@.len() && (#[trigger] out@[j])@.id == k by {
                let j = idx_of(self.infos(), k);
                assert(0 <= j < out@.len() && out@[j]@.id == k);
            }
        }
        out
    }
}

impl Default for PeerStore {
    /// An empty directory.
    fn default() -> (r: Self)
        ensures
            r.wf(),
            r@ == Map::<Seq<char>, PeerInfoV>::empty(),
    {
        let r = PeerStore { peers: Vec::new() };
        proof {
            assert(r.infos() =~= Seq::<PeerInfoV>::empty());
            assert(r@ =~= Map::<Seq<char>, PeerInfoV>::empty());
        }
        r
    }
}

/// Removing the record at `i` leaves every other identity in place.
proof fn lemma_remove_keeps_others(s: Seq<PeerInfoV>, i: int)
    requires
        distinct_ids(s),
        0 <= i < s.len(),
    ensures
        distinct_ids(s.remove(i)),
        forall|j: int|
            0 <= j < s.remove(i).len() ==> (#[trigger] s.remove(i)[j]).id != s[i].id,
{
    let t = s.remove(i);
    assert forall|p: int, q: int|
        0 <= p < q < t.len() implies (#[trigger] t[p]).id != (#[trigger] t[q]).id by {
        let p0 = if p < i { p } else { p + 1 };
        let q0 = if q < i { q } else { q + 1 };
        assert(t[p] == s[p0] && t[q] == s[q0]);
    }
    assert forall|j: int| 0 <= j < t.len() implies (#[trigger] t[j]).id != s[i].id by {
        let j0 = if j < i { j } else { j + 1 };
        assert(t[j] == s[j0]);
        assert(j0 != i);
    }
}

/// After removing any old record for `v.id` and appending `v`, the
/// directory's map view is the old view with `v` written in.
proof fn lemma_store_view_insert(
    old_infos: Seq<PeerInfoV>,
    mid_infos: Seq<PeerInfoV>,
    old_view: Map<Seq<char>, PeerInfoV>,
    new_view: Map<Seq<char>, PeerInfoV>,
    v: PeerInfoV,
)
    requires
        distinct_ids(old_infos),
        distinct_ids(mid_infos),
        forall|j: int| 0 <= j < mid_infos.len() ==> (#[trigger] mid_infos[j]).id != v.id,
        // mid is old with the record for v.id (if any) removed
        has_id(old_infos, v.id) ==> mid_infos == old_infos.remove(idx_of(old_infos, v.id)),
        !has_id(old_infos, v.id) ==> mid_infos == old_infos,
        old_view == Map::new(
            |id: Seq<char>| has_id(old_infos, id),
            |id: Seq<char>| old_infos[idx_of(old_infos, id)],
        ),
        new_view == Map::new(
            |id: Seq<char>| has_id(mid_infos.push(v), id),
            |id: Seq<char>| mid_infos.push(v)[idx_of(mid_infos.push(v), id)],
        ),
    ensures
        new_view == old_view.insert(v.id, v),
{
    let new_infos = mid_infos.push(v);
    assert(distinct_ids(new_infos)) by {
        assert forall|i: int, j: int|
            0 <= i < j < new_infos.len() implies (#[trigger] new_infos[i]).id != (
        #[trigger] new_infos[j]).id by {
            if j < mid_infos.len() {
                assert(new_infos[i] == mid_infos[i] && new_infos[j] == mid_infos[j]);
            } else {
                assert(new_infos[j] == v && new_infos[i] == mid_infos[i]);
            }
        }
    }
    assert forall|k: Seq<char>| #[trigger]
        new_view.dom().contains(k) <==> old_view.insert(v.id, v).dom().contains(k) by {
        lemma_same_ids(old_infos, mid_infos, v, k);
    }
    assert forall|k: Seq<char>| new_view.dom().contains(k) implies #[trigger] new_view[k]
        == old_view.insert(v.id, v)[k] by {
        lemma_same_ids(old_infos, mid_infos, v, k);
        if k == v.id {
            lemma_idx_of(new_infos, v.id, mid_infos.len() as int);
            assert(new_infos[mid_infos.len() as int] == v);
        } else {
            let i = idx_of(new_infos, k);
            assert(0 <= i < new_infos.len() && new_infos[i].id == k);
            assert(i < mid_infos.len());
            assert(new_infos[i] == mid_infos[i]);
            if has_id(old_infos, v.id) {
                let r = idx_of(old_infos, v.id);
                let i0 = if i < r { i } else { i + 1 };
                assert(mid_infos[i] == old_infos[i0]);
                lemma_idx_of(old_infos, k, i0);
            } else {
                lemma_idx_of(old_infos, k, i);
            }
            lemma_idx_of(new_infos, k, i);
        }
    }
    assert(new_view =~= old_view.insert(v.id, v));
}

/// The identities present after the replace step are the old ones plus
/// `v.id`.
proof fn lemma_same_ids(
    old_infos: Seq<PeerInfoV>,
    mid_infos: Seq<PeerInfoV>,
    v: PeerInfoV,
    k: Seq<char>,
)
    requires
        distinct_ids(old_infos),
        forall|j: int| 0 <= j < mid_infos.len() ==> (#[trigger] mid_infos[j]).id != v.id,
        has_id(old_infos, v.id) ==> mid_infos == old_infos.remove(idx_of(old_infos, v.id)),
        !has_id(old_infos, v.id) ==> mid_infos == old_infos,
    ensures
        has_id(mid_infos.push(v), k) <==> (has_id(old_infos, k) || k == v.id),
{
    let new_infos = mid_infos.push(v);
    if k == v.id {
        assert(new_infos[mid_infos.len() as int] == v);
        assert(has_id(new_infos, k));
    }
    if has_id(new_infos, k) && k != v.id {
        let i = choose|i: int| 0 <= i < new_infos.len() && (#[trigger] new_infos[i]).id == k;
        assert(i < mid_infos.len());
        assert(mid_infos[i] == new_infos[i]);
        if has_id(old_infos, v.id) {
            let r = idx_of(old_infos, v.id);
            let i0 = if i < r { i } else { i + 1 };
            assert(mid_infos[i] == old_infos[i0]);
            assert(has_id(old_infos, k));
        } else {
            assert(has_id(old_infos, k));
        }
    }
    if has_id(old_infos, k) && k != v.id {
        let i = choose|i: int| 0 <= i < old_infos.len() && (#[trigger] old_infos[i]).id == k;
        if has_id(old_infos, v.id) {
            let r = idx_of(old_infos, v.id);
            assert(0 <= r < old_infos.len() && old_infos[r].id == v.id);
            assert(i != r);
            let i1 = if i < r { i } else { i - 1 };
            assert(mid_infos[i1] == old_infos[i]);
            assert(new_infos[i1] == mid_infos[i1]);
            assert(has_id(new_infos, k));
        } else {
            assert(new_infos[i] == mid_infos[i]);
            assert(has_id(new_infos, k));
        }
    }
}

/// Last-write-wins: writing a second record for the same identity leaves
/// the directory exactly as if only the second write had happened — the
/// first record is fully replaced, never merged.
pub proof fn lemma_last_write_wins(
    m: Map<Seq<char>, PeerInfoV>,
    first: PeerInfoV,
    second: PeerInfoV,
)
    requires
        first.id == second.id,
    ensures
        m.insert(first.id, first).insert(second.id, second) == m.insert(second.id, second),
        m.insert(first.id, first).insert(second.id, second)[second.id] == second,
{
    assert(m.insert(first.id, first).insert(second.id, second) =~= m.insert(
        second.id,
        second,
    ));
}

} // verus!
