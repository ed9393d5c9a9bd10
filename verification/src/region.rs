//! Region descriptors: a contiguous key range, the replicas that hold it and
//! the epoch that fences stale views of either.

use crate::keys::{
    key_copy, key_eq, key_in_range, key_less, key_lt, lemma_le_lt_transitive, lemma_lt_total, range_contains, range_valid,
};
use vstd::prelude::*;

verus! {

/// The two counters of a region. `version` moves with the key range (split,
/// merge), `conf_ver` with the replica set.
#[derive(Clone, Copy, Debug, PartialEq, Eq, Structural)]
pub struct RegionEpoch {
    pub version: u64,
    pub conf_ver: u64,
}

/// One replica of a region on one store.
#[derive(Clone, Copy, Debug, PartialEq, Eq, Structural)]
pub struct Peer {
    pub id: u64,
    pub store_id: u64,
    pub region_id: u64,
}

/// A region descriptor.
#[derive(Debug)]
pub struct Region {
    pub id: u64,
    pub start_key: Vec<u8>,
    pub end_key: Vec<u8>,
    pub epoch: RegionEpoch,
    pub peers: Vec<Peer>,
}

/// What a region descriptor says, as plain values.
pub ghost struct RegionView {
    pub id: u64,
    pub start_key: Seq<u8>,
    pub end_key: Seq<u8>,
    pub epoch: RegionEpoch,
    pub peers: Seq<Peer>,
}

impl View for Region {
    type V = RegionView;

    open spec fn view(&self) -> RegionView {
        RegionView {
            id: self.id,
            start_key: self.start_key@,
            end_key: self.end_key@,
            epoch: self.epoch,
            peers: self.peers@,
        }
    }
}

impl RegionEpoch {
    /// Neither counter of `self` is behind `earlier`.
    pub open spec fn not_before(self, earlier: RegionEpoch) -> bool {
        earlier.version <= self.version && earlier.conf_ver <= self.conf_ver
    }

    /// `self` is ahead of `other` in the order that picks the authoritative
    /// of two epochs: by version, then by replica-set version.
    pub open spec fn newer_than(self, other: RegionEpoch) -> bool {
        self.version > other.version || (self.version == other.version && self.conf_ver
            > other.conf_ver)
    }

    /// Whether `self` is ahead of `other`: by version, then by replica-set
    /// version.
    pub fn is_newer_than(&self, other: &RegionEpoch) -> (r: bool)
        ensures
            r == self.newer_than(*other),
    {
        self.version > other.version || (self.version == other.version && self.conf_ver
            > other.conf_ver)
    }
}

impl RegionView {
    /// Whether `key` lies in the region's range.
    pub open spec fn contains(self, key: Seq<u8>) -> bool {
        range_contains(self.start_key, self.end_key, key)
    }

    /// Whether a replica of the region lives on `store_id`.
    pub open spec fn has_store(self, store_id: u64) -> bool {
        exists|i: int| 0 <= i < self.peers.len() && (#[trigger] self.peers[i]).store_id == store_id
    }

    /// The two regions have replicas on exactly the same stores.
    pub open spec fn same_stores(self, other: RegionView) -> bool {
        &&& forall|i: int|
            0 <= i < self.peers.len() ==> other.has_store((#[trigger] self.peers[i]).store_id)
        &&& forall|i: int|
            0 <= i < other.peers.len() ==> self.has_store((#[trigger] other.peers[i]).store_id)
    }

    /// The range is not empty, every peer belongs to this region, and no two
    /// peers share an id or a store.
    pub open spec fn wf(self) -> bool {
        &&& range_valid(self.start_key, self.end_key)
        &&& forall|i: int|
            0 <= i < self.peers.len() ==> (#[trigger] self.peers[i]).region_id == self.id
        &&& forall|i: int, j: int|
            0 <= i < j < self.peers.len() ==> {
                &&& (#[trigger] self.peers[i]).id != (#[trigger] self.peers[j]).id
                &&& self.peers[i].store_id != self.peers[j].store_id
            }
    }

    /// `self` ends where `other` starts.
    pub open spec fn precedes(self, other: RegionView) -> bool {
        self.end_key.len() > 0 && self.end_key == other.start_key
    }

    /// The two ranges share a boundary.
    pub open spec fn adjacent(self, other: RegionView) -> bool {
        self.precedes(other) || other.precedes(self)
    }

    /// Some key lies in both ranges.
    pub open spec fn overlaps(self, other: RegionView) -> bool {
        exists|key: Seq<u8>| self.contains(key) && other.contains(key)
    }
}

/// Two ranges share a key exactly when both hold a key at all and each
/// starts before the other ends.
pub proof fn lemma_overlap_by_bounds(a: RegionView, b: RegionView)
    ensures
        a.overlaps(b) <==> range_valid(a.start_key, a.end_key) && range_valid(
            b.start_key,
            b.end_key,
        ) && (a.end_key.len() == 0 || key_lt(b.start_key, a.end_key)) && (b.end_key.len() == 0
            || key_lt(a.start_key, b.end_key)),
{
    let by_bounds = range_valid(a.start_key, a.end_key) && range_valid(b.start_key, b.end_key) && (
    a.end_key.len() == 0 || key_lt(b.start_key, a.end_key)) && (b.end_key.len() == 0 || key_lt(
        a.start_key,
        b.end_key,
    ));
    if a.overlaps(b) {
        let key = choose|key: Seq<u8>| a.contains(key) && b.contains(key);
        if a.end_key.len() != 0 {
            lemma_le_lt_transitive(b.start_key, key, a.end_key);
            lemma_le_lt_transitive(a.start_key, key, a.end_key);
        }
        if b.end_key.len() != 0 {
            lemma_le_lt_transitive(a.start_key, key, b.end_key);
            lemma_le_lt_transitive(b.start_key, key, b.end_key);
        }
    }
    if by_bounds {
        lemma_lt_total(a.start_key, b.start_key);
        if key_lt(a.start_key, b.start_key) {
            assert(a.contains(b.start_key) && b.contains(b.start_key));
        } else {
            assert(a.contains(a.start_key) && b.contains(a.start_key));
        }
    }
}

impl Region {
    /// A descriptor made of its parts.
    pub fn new(
        id: u64,
        start_key: Vec<u8>,
        end_key: Vec<u8>,
        epoch: RegionEpoch,
        peers: Vec<Peer>,
    ) -> (r: Self)
        ensures
            r@ == (RegionView { id, start_key: start_key@, end_key: end_key@, epoch, peers: peers@ }),
    {
        Region { id, start_key, end_key, epoch, peers }
    }

    /// Whether `key` lies in the region's range.
    pub fn contains_key(&self, key: &[u8]) -> (r: bool)
        ensures
            r == self@.contains(key@),
    {
        key_in_range(self.start_key.as_slice(), self.end_key.as_slice(), key)
    }

    /// Whether `self` ends where `other` starts.
    pub fn precedes(&self, other: &Region) -> (r: bool)
        ensures
            r == self@.precedes(other@),
    {
        self.end_key.len() > 0 && key_eq(self.end_key.as_slice(), other.start_key.as_slice())
    }

    /// Whether the two ranges share a boundary.
    pub fn is_adjacent(&self, other: &Region) -> (r: bool)
        ensures
            r == self@.adjacent(other@),
    {
        self.precedes(other) || other.precedes(self)
    }

    /// Whether the range holds at least one key.
    pub fn has_valid_range(&self) -> (r: bool)
        ensures
            r == range_valid(self@.start_key, self@.end_key),
    {
        self.end_key.len() == 0 || key_less(self.start_key.as_slice(), self.end_key.as_slice())
    }

    /// Whether some key lies in both ranges.
    pub fn overlaps(&self, other: &Region) -> (r: bool)
        ensures
            r == self@.overlaps(other@),
    {
        proof {
            lemma_overlap_by_bounds(self@, other@);
        }
        self.has_valid_range() && other.has_valid_range() && (self.end_key.len() == 0 || key_less(other.start_key.as_slice(), self.end_key.as_slice()))
            && (other.end_key.len() == 0 || key_less(
            self.start_key.as_slice(),
            other.end_key.as_slice(),
        ))
    }

    /// The replica on `store_id`, if the region has one there.
    pub fn find_peer(&self, store_id: u64) -> (r: Option<Peer>)
        ensures
            r is Some <==> self@.has_store(store_id),
            r matches Some(p) ==> p.store_id == store_id && self@.peers.contains(p),
    {
        let ghost v = self@;
        let mut i: usize = 0;
        while i < self.peers.len()
            invariant
                v == self@,
                0 <= i <= v.peers.len(),
                forall|j: int| 0 <= j < i ==> (#[trigger] v.peers[j]).store_id != store_id,
            decreases v.peers.len() - i,
        {
            if self.peers[i].store_id == store_id {
                assert(v.peers[i as int].store_id == store_id);
                return Some(self.peers[i]);
            }
            i += 1;
        }
        None
    }

    /// Whether both regions have replicas on exactly the same stores.
    pub fn has_same_stores(&self, other: &Region) -> (r: bool)
        ensures
            r == self@.same_stores(other@),
    {
        let ghost v = self@;
        let ghost w = other@;
        let mut i: usize = 0;
        while i < self.peers.len()
            invariant
                v == self@,
                w == other@,
                0 <= i <= v.peers.len(),
                forall|j: int| 0 <= j < i ==> w.has_store((#[trigger] v.peers[j]).store_id),
            decreases v.peers.len() - i,
        {
            if other.find_peer(self.peers[i].store_id).is_none() {
                assert(!w.has_store(v.peers[i as int].store_id));
                return false;
            }
            i += 1;
        }
        let mut k: usize = 0;
        while k < other.peers.len()
            invariant
                v == self@,
                w == other@,
                0 <= k <= w.peers.len(),
                forall|j: int|
                    0 <= j < v.peers.len() ==> w.has_store((#[trigger] v.peers[j]).store_id),
                forall|j: int| 0 <= j < k ==> v.has_store((#[trigger] w.peers[j]).store_id),
            decreases w.peers.len() - k,
        {
            if self.find_peer(other.peers[k].store_id).is_none() {
                assert(!v.has_store(w.peers[k as int].store_id));
                return false;
            }
            k += 1;
        }
        true
    }

    /// Whether the descriptor is well formed: a non-empty range, every peer
    /// of this region, no id and no store used twice.
    pub fn is_well_formed(&self) -> (r: bool)
        ensures
            r == self@.wf(),
    {
        if !self.has_valid_range() {
            return false;
        }
        let ghost v = self@;
        let mut i: usize = 0;
        while i < self.peers.len()
            invariant
                v == self@,
                0 <= i <= v.peers.len(),
                forall|a: int| 0 <= a < i ==> (#[trigger] v.peers[a]).region_id == v.id,
                forall|a: int, b: int|
                    0 <= a < b < i ==> {
                        &&& (#[trigger] v.peers[a]).id != (#[trigger] v.peers[b]).id
                        &&& v.peers[a].store_id != v.peers[b].store_id
                    },
            decreases v.peers.len() - i,
        {
            if self.peers[i].region_id != self.id {
                assert(v.peers[i as int].region_id != v.id);
                return false;
            }
            let mut j: usize = 0;
            while j < i
                invariant
                    v == self@,
                    0 <= j <= i < v.peers.len(),
                    forall|a: int|
                        0 <= a < j ==> {
                            &&& (#[trigger] v.peers[a]).id != v.peers[i as int].id
                            &&& v.peers[a].store_id != v.peers[i as int].store_id
                        },
                decreases i - j,
            {
                if self.peers[j].id == self.peers[i].id || self.peers[j].store_id
                    == self.peers[i].store_id {
                    assert(v.peers[j as int].id == v.peers[i as int].id || v.peers[j as int].store_id
                        == v.peers[i as int].store_id);
                    return false;
                }
                j += 1;
            }
            i += 1;
        }
        true
    }
}

impl Clone for Region {
    fn clone(&self) -> (r: Self)
        ensures
            r@ == self@,
    {
        let peers = self.peers.clone();
        assert(peers@ =~= self.peers@);
        Region {
            id: self.id,
            start_key: key_copy(self.start_key.as_slice()),
            end_key: key_copy(self.end_key.as_slice()),
            epoch: self.epoch,
            peers,
        }
    }
}

impl PartialEq for Region {
    fn eq(&self, other: &Self) -> (r: bool) {
        if self.id != other.id || self.epoch != other.epoch || self.peers.len()
            != other.peers.len() {
            return false;
        }
        if !key_eq(self.start_key.as_slice(), other.start_key.as_slice()) || !key_eq(
            self.end_key.as_slice(),
            other.end_key.as_slice(),
        ) {
            return false;
        }
        let mut i: usize = 0;
        while i < self.peers.len()
            invariant
                self.peers@.len() == other.peers@.len(),
                0 <= i <= self.peers@.len(),
                forall|j: int| 0 <= j < i ==> self.peers@[j] == other.peers@[j],
            decreases self.peers@.len() - i,
        {
            if self.peers[i] != other.peers[i] {
                return false;
            }
            i += 1;
        }
        assert(self.peers@ =~= other.peers@);
        true
    }
}

impl vstd::std_specs::cmp::PartialEqSpecImpl for Region {
    open spec fn obeys_eq_spec() -> bool {
        true
    }

    open spec fn eq_spec(&self, other: &Self) -> bool {
        self@ == other@
    }
}

impl Eq for Region {

}

} // verus!
