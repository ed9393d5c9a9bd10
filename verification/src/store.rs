//! All replicas that one store holds, and the pipeline that applies
//! committed entries to them. The live replicas of a store never share a
//! key.

use crate::apply::{absorb, lemma_absorb_unites, lemma_split_partitions, split_right};
use crate::catch_up::{
    after_source_commit, frozen_commit, lemma_replay_frame, replayed_writes, retire_error,
};
use crate::command::{AdminCommand, Command, LogEntry, MergeError};
use crate::region::{Region, RegionView};
use crate::replica::{entry_error, reports, split_off, step, Applied, Replica, ReplicaView};
use crate::snapshot::{
    absorbed_by, entombed, hit, lemma_snapshot_store, own_position, retired_ids, retired_ids_by,
    receiving, resumed, retired_keys_kept, snapshot_replicas, store_receiving,
    store_snapshot_error, Snapshot,
};
use crate::state::{LocalStateView, PeerState, RegionLocalState};
use vstd::prelude::*;

verus! {

/// The replicas of one store.
#[derive(Debug)]
pub struct Store {
    pub(crate) store_id: u64,
    pub(crate) replicas: Vec<Replica>,
}

/// A store as plain values.
pub ghost struct StoreView {
    pub store_id: u64,
    pub replicas: Seq<ReplicaView>,
}

impl View for Store {
    type V = StoreView;

    closed spec fn view(&self) -> StoreView {
        StoreView {
            store_id: self.store_id,
            replicas: Seq::new(self.replicas@.len(), |i: int| self.replicas@[i]@),
        }
    }
}

impl StoreView {
    /// Replica `i` is live and `key` lies in its range.
    pub open spec fn holds(self, i: int, key: Seq<u8>) -> bool {
        &&& 0 <= i < self.replicas.len()
        &&& self.replicas[i].local.live()
        &&& self.replicas[i].local.region.contains(key)
    }

    /// No key lies in the ranges of two live replicas.
    pub open spec fn disjoint(self) -> bool {
        forall|i: int, j: int, key: Seq<u8>|
            #[trigger] self.holds(i, key) && #[trigger] self.holds(j, key) ==> i == j
    }

    /// Some live replica holds `key`.
    pub open spec fn has_owner(self, key: Seq<u8>) -> bool {
        exists|i: int| #[trigger] self.holds(i, key)
    }

    /// Every key lies in the range of some live replica.
    pub open spec fn covers(self) -> bool {
        forall|key: Seq<u8>| #[trigger] self.has_owner(key)
    }

    /// The store holds a replica, live or retired, of region `region_id`.
    pub open spec fn has_region(self, region_id: u64) -> bool {
        exists|i: int|
            0 <= i < self.replicas.len() && (#[trigger] self.replicas[i]).local.region.id
                == region_id
    }

    /// The live replica of region `region_id` holds `key`.
    pub open spec fn owns(self, region_id: u64, key: Seq<u8>) -> bool {
        exists|i: int| #[trigger] self.holds(i, key) && self.replicas[i].local.region.id == region_id
    }

    /// Every replica is well formed and of this store, no region has two
    /// replicas here, and the live replicas share no key.
    pub open spec fn wf(self) -> bool {
        &&& forall|i: int|
            0 <= i < self.replicas.len() ==> (#[trigger] self.replicas[i]).wf()
                && self.replicas[i].store_id == self.store_id
        &&& forall|i: int, j: int|
            0 <= i < j < self.replicas.len() ==> (#[trigger] self.replicas[i]).local.region.id != (
            #[trigger] self.replicas[j]).local.region.id
        &&& self.disjoint()
    }

    /// Where the replica of region `region_id` stands.
    pub open spec fn position(self, region_id: u64) -> int {
        choose|i: int|
            0 <= i < self.replicas.len() && (#[trigger] self.replicas[i]).local.region.id
                == region_id
    }

    /// The store with replica `i` replaced.
    pub open spec fn put(self, i: int, replica: ReplicaView) -> StoreView {
        StoreView { replicas: self.replicas.update(i, replica), ..self }
    }

    /// The store with one more replica.
    pub open spec fn add(self, replica: ReplicaView) -> StoreView {
        StoreView { replicas: self.replicas.push(replica), ..self }
    }

    /// Some live replica but `skip` shares a key with `range`.
    pub open spec fn blocked(self, range: RegionView, skip: Set<int>) -> bool {
        exists|i: int, key: Seq<u8>|
            #[trigger] self.holds(i, key) && !skip.contains(i) && range.contains(key)
    }
}

/// Why a replica cannot be added to a store, if it cannot.
pub open spec fn insert_error(v: StoreView, replica: ReplicaView) -> Option<MergeError> {
    if !replica.wf() {
        Some(MergeError::CorruptState)
    } else if replica.store_id != v.store_id {
        Some(MergeError::InvalidPeer)
    } else if v.has_region(replica.local.region.id) {
        Some(MergeError::RegionExists)
    } else if replica.local.live() && v.blocked(replica.local.region, Set::empty()) {
        Some(MergeError::RangeOverlap)
    } else {
        None
    }
}

impl Store {
    /// A store without replicas.
    pub fn new(store_id: u64) -> (r: Self)
        ensures
            r@ == (StoreView { store_id, replicas: Seq::empty() }),
            r@.wf(),
    {
        let r = Store { store_id, replicas: Vec::new() };
        assert(r@.replicas =~= Seq::empty());
        r
    }

    /// The id of the store.
    pub fn store_id(&self) -> (r: u64)
        ensures
            r == self@.store_id,
    {
        self.store_id
    }

    /// The number of replicas held, retired ones included.
    pub fn len(&self) -> (r: usize)
        ensures
            r == self@.replicas.len(),
    {
        self.replicas.len()
    }

    /// Replica number `i`.
    pub fn replica(&self, i: usize) -> (r: &Replica)
        requires
            i < self@.replicas.len(),
        ensures
            r@ == self@.replicas[i as int],
    {
        &self.replicas[i]
    }

    /// Whether the store is in a state that the pipeline can produce: every
    /// replica well formed and of this store, no region held twice, and no
    /// key held by two live replicas.
    pub fn is_well_formed(&self) -> (r: bool)
        ensures
            r == self@.wf(),
    {
        let ghost v = self@;
        let mut i: usize = 0;
        while i < self.replicas.len()
            invariant
                v == self@,
                0 <= i <= v.replicas.len(),
                forall|a: int|
                    0 <= a < i ==> (#[trigger] v.replicas[a]).wf() && v.replicas[a].store_id
                        == v.store_id,
                forall|a: int, b: int|
                    0 <= a < b < i ==> (#[trigger] v.replicas[a]).local.region.id != (
                    #[trigger] v.replicas[b]).local.region.id,
                forall|a: int, b: int, key: Seq<u8>|
                    0 <= a < i && 0 <= b < i && #[trigger] v.holds(a, key) && #[trigger] v.holds(
                        b,
                        key,
                    ) ==> a == b,
            decreases v.replicas.len() - i,
        {
            if !self.replicas[i].is_well_formed() || self.replicas[i].store_id != self.store_id {
                assert(!(v.replicas[i as int].wf() && v.replicas[i as int].store_id
                    == v.store_id));
                return false;
            }
            let mut j: usize = 0;
            while j < i
                invariant
                    v == self@,
                    0 <= j <= i < v.replicas.len(),
                    forall|a: int|
                        0 <= a < j ==> (#[trigger] v.replicas[a]).local.region.id
                            != v.replicas[i as int].local.region.id,
                    forall|a: int, key: Seq<u8>|
                        0 <= a < j && #[trigger] v.holds(a, key) ==> !v.holds(i as int, key),
                decreases i - j,
            {
                if self.replicas[j].local.region.id == self.replicas[i].local.region.id {
                    assert(v.replicas[j as int].local.region.id
                        == v.replicas[i as int].local.region.id);
                    return false;
                }
                if self.replicas[j].local.is_live() && self.replicas[i].local.is_live()
                    && self.replicas[j].local.region.overlaps(&self.replicas[i].local.region) {
                    proof {
                        let key = choose|key: Seq<u8>|
                            v.replicas[j as int].local.region.contains(key)
                                && v.replicas[i as int].local.region.contains(key);
                        assert(v.holds(j as int, key) && v.holds(i as int, key));
                    }
                    return false;
                }
                assert forall|key: Seq<u8>| #[trigger] v.holds(j as int, key) implies !v.holds(
                    i as int,
                    key,
                ) by {
                    if v.holds(i as int, key) {
                        assert(v.replicas[j as int].local.region.contains(key)
                            && v.replicas[i as int].local.region.contains(key));
                    }
                }
                j += 1;
            }
            i += 1;
        }
        true
    }

    /// Where the replica of region `region_id` stands, live or retired.
    pub fn find(&self, region_id: u64) -> (r: Option<usize>)
        ensures
            r is Some <==> self@.has_region(region_id),
            r matches Some(i) ==> i < self@.replicas.len() && self@.replicas[i as int].local.region.id
                == region_id,
    {
        let ghost v = self@;
        let mut i: usize = 0;
        while i < self.replicas.len()
            invariant
                v == self@,
                0 <= i <= v.replicas.len(),
                forall|j: int| 0 <= j < i ==> (#[trigger] v.replicas[j]).local.region.id != region_id,
            decreases v.replicas.len() - i,
        {
            if self.replicas[i].local.region.id == region_id {
                assert(v.replicas[i as int].local.region.id == region_id);
                return Some(i);
            }
            i += 1;
        }
        None
    }

    /// Whether some live replica, but those at `skip_a` and `skip_b`, shares
    /// a key with `range`. A position past the end skips nothing.
    fn is_blocked(&self, range: &Region, skip_a: usize, skip_b: usize) -> (r: bool)
        ensures
            r == self@.blocked(range@, set![skip_a as int, skip_b as int]),
    {
        let ghost v = self@;
        let ghost skip = set![skip_a as int, skip_b as int];
        let mut i: usize = 0;
        while i < self.replicas.len()
            invariant
                v == self@,
                skip == set![skip_a as int, skip_b as int],
                0 <= i <= v.replicas.len(),
                forall|j: int, key: Seq<u8>|
                    0 <= j < i && #[trigger] v.holds(j, key) && !skip.contains(j)
                        ==> !range@.contains(key),
            decreases v.replicas.len() - i,
        {
            if i != skip_a && i != skip_b && self.replicas[i].local.is_live() {
                if self.replicas[i].local.region.overlaps(range) {
                    proof {
                        let key = choose|key: Seq<u8>|
                            v.replicas[i as int].local.region.contains(key) && range@.contains(key);
                        assert(v.holds(i as int, key));
                    }
                    return true;
                }
                assert forall|key: Seq<u8>| #[trigger] v.holds(i as int, key) implies !range@.contains(
                    key,
                ) by {
                    if range@.contains(key) {
                        assert(v.replicas[i as int].local.region.contains(key) && range@.contains(
                            key,
                        ));
                    }
                }
            }
            i += 1;
        }
        false
    }

    /// Adds a replica. It must be well formed and of this store, its region
    /// must be new here, and if it is live its range must be free.
    pub fn insert(&mut self, replica: Replica) -> (r: Result<(), MergeError>)
        requires
            old(self)@.wf(),
        ensures
            final(self)@.wf(),
            match insert_error(old(self)@, replica@) {
                Some(e) => r == Err::<(), MergeError>(e) && final(self)@ == old(self)@,
                None => r is Ok && final(self)@ == old(self)@.add(replica@),
            },
    {
        if !replica.is_well_formed() {
            return Err(MergeError::CorruptState);
        }
        if replica.store_id != self.store_id {
            return Err(MergeError::InvalidPeer);
        }
        if self.find(replica.local.region.id).is_some() {
            return Err(MergeError::RegionExists);
        }
        let count = self.replicas.len();
        if replica.local.is_live() {
            let blocked = self.is_blocked(&replica.local.region, count, count);
            proof {
                let v = self@;
                let skip = set![count as int, count as int];
                if v.blocked(replica@.local.region, skip) {
                    let (i, key) = choose|i: int, key: Seq<u8>|
                        #[trigger] v.holds(i, key) && !skip.contains(i)
                            && replica@.local.region.contains(key);
                    assert(v.holds(i, key) && !Set::<int>::empty().contains(i));
                }
                if v.blocked(replica@.local.region, Set::empty()) {
                    let (i, key) = choose|i: int, key: Seq<u8>|
                        #[trigger] v.holds(i, key) && !Set::<int>::empty().contains(i)
                            && replica@.local.region.contains(key);
                    assert(v.holds(i, key) && !skip.contains(i));
                }
            }
            if blocked {
                return Err(MergeError::RangeOverlap);
            }
        }
        let ghost before = self@;
        let ghost added = replica@;
        self.replicas.push(replica);
        proof {
            let after = self@;
            assert(after.replicas =~= before.replicas.push(added));
            assert forall|i: int, j: int, key: Seq<u8>| #[trigger]
                after.holds(i, key) && #[trigger] after.holds(j, key) implies i == j by {
                if i != j {
                    if i < before.replicas.len() && j < before.replicas.len() {
                        assert(before.holds(i, key) && before.holds(j, key));
                    } else if i < before.replicas.len() {
                        assert(before.holds(i, key) && !Set::<int>::empty().contains(i));
                    } else if j < before.replicas.len() {
                        assert(before.holds(j, key) && !Set::<int>::empty().contains(j));
                    }
                }
            }
        }
        Ok(())
    }

    /// The descriptor of the live region that holds `key`, if the store has
    /// one.
    pub fn get_region(&self, key: &[u8]) -> (r: Option<&Region>)
        ensures
            r matches Some(region) ==> self@.owns(region.id, key@) && exists|i: int|
                #[trigger] self@.holds(i, key@) && self@.replicas[i].local.region == region@,
            r is None ==> forall|i: int| !self@.holds(i, key@),
    {
        let ghost v = self@;
        let mut i: usize = 0;
        while i < self.replicas.len()
            invariant
                v == self@,
                0 <= i <= v.replicas.len(),
                forall|j: int| 0 <= j < i ==> !v.holds(j, key@),
            decreases v.replicas.len() - i,
        {
            if self.replicas[i].local.is_live() && self.replicas[i].local.region.contains_key(key) {
                assert(v.holds(i as int, key@));
                return Some(&self.replicas[i].local.region);
            }
            i += 1;
        }
        None
    }

    /// The descriptor of region `region_id`, if the store has a live replica
    /// of it.
    pub fn get_region_by_id(&self, region_id: u64) -> (r: Option<&Region>)
        ensures
            r matches Some(region) ==> region.id == region_id && exists|i: int|
                0 <= i < self@.replicas.len() && (#[trigger] self@.replicas[i]).local.live()
                    && self@.replicas[i].local.region == region@,
            r is None ==> forall|i: int|
                0 <= i < self@.replicas.len() && (#[trigger] self@.replicas[i]).local.region.id
                    == region_id ==> !self@.replicas[i].local.live(),
    {
        let ghost v = self@;
        let mut i: usize = 0;
        while i < self.replicas.len()
            invariant
                v == self@,
                0 <= i <= v.replicas.len(),
                forall|j: int|
                    0 <= j < i && (#[trigger] v.replicas[j]).local.region.id == region_id
                        ==> !v.replicas[j].local.live(),
            decreases v.replicas.len() - i,
        {
            if self.replicas[i].local.region.id == region_id && self.replicas[i].local.is_live() {
                assert(v.replicas[i as int].local.live());
                return Some(&self.replicas[i].local.region);
            }
            i += 1;
        }
        None
    }

    /// What the replica of region `region_id` persists, live or retired.
    pub fn region_state(&self, region_id: u64) -> (r: Option<&RegionLocalState>)
        ensures
            r is Some <==> self@.has_region(region_id),
            r matches Some(state) ==> state.region.id == region_id && exists|i: int|
                0 <= i < self@.replicas.len() && (#[trigger] self@.replicas[i]).local == state@,
    {
        match self.find(region_id) {
            Some(i) => {
                assert(self@.replicas[i as int].local == self.replicas[i as int].local@);
                Some(&self.replicas[i].local)
            },
            None => None,
        }
    }
}

/// Every key that a live replica of `before` holds, a live replica of
/// `after` holds.
pub open spec fn keeps_owners(before: StoreView, after: StoreView) -> bool {
    forall|key: Seq<u8>| #[trigger] before.has_owner(key) ==> after.has_owner(key)
}

/// The replica after an entry that it had to consume without effect.
pub open spec fn consumed(t: ReplicaView, entry: LogEntry) -> ReplicaView {
    ReplicaView { applied_index: entry.index, ..t }
}

/// Why the commit of a merge has no effect on the store, if it has none.
/// `i` is where the target stands.
pub open spec fn merge_route_error(
    v: StoreView,
    i: int,
    entry: LogEntry,
    source: LocalStateView,
    entries: Seq<LogEntry>,
) -> Option<MergeError> {
    let t = v.replicas[i];
    if entry_error(t, entry) is Some {
        entry_error(t, entry)
    } else if !v.has_region(source.region.id) {
        Some(MergeError::SourceNotReady)
    } else {
        let j = v.position(source.region.id);
        if v.blocked(absorb(t.local.region, source.region), set![i, j]) {
            Some(MergeError::RangeOverlap)
        } else {
            retire_error(v.replicas[j], source, entries)
        }
    }
}

/// The store after the commit of a merge was handed to the target at `i`.
/// The target absorbs the source only once the source's replica here is
/// retired. While that replica lags and cannot be brought up, the entry
/// stays unapplied. Where the replica has caught up and is not at the merge
/// point, the merge is stale: the target consumes the entry without effect.
pub open spec fn merge_route_next(
    v: StoreView,
    i: int,
    entry: LogEntry,
    source: LocalStateView,
    entries: Seq<LogEntry>,
) -> StoreView {
    let t = v.replicas[i];
    if entry_error(t, entry) is Some {
        v.put(i, step(t, entry))
    } else if !v.has_region(source.region.id) {
        v
    } else {
        let j = v.position(source.region.id);
        if v.blocked(absorb(t.local.region, source.region), set![i, j]) {
            v
        } else {
            let caught_up = v.put(j, after_source_commit(v.replicas[j], source, entries));
            match retire_error(v.replicas[j], source, entries) {
                None => caught_up.put(i, step(t, entry)),
                Some(MergeError::SourceNotReady) => caught_up,
                Some(_) => caught_up.put(i, consumed(t, entry)),
            }
        }
    }
}

/// Why handing `entry` to region `region_id` has no effect, if it has none.
pub open spec fn route_error(v: StoreView, region_id: u64, entry: LogEntry) -> Option<MergeError> {
    if !v.has_region(region_id) {
        Some(MergeError::RegionNotFound)
    } else {
        let i = v.position(region_id);
        match entry.cmd {
            Command::Admin(AdminCommand::Split { split_key, new_region_id, new_peer_ids }) => {
                if v.has_region(new_region_id) {
                    Some(MergeError::RegionExists)
                } else {
                    entry_error(v.replicas[i], entry)
                }
            },
            Command::Admin(AdminCommand::CommitMerge { source, entries }) => {
                merge_route_error(v, i, entry, source@, entries@)
            },
            _ => entry_error(v.replicas[i], entry),
        }
    }
}

/// The store after `entry` was handed to region `region_id`.
pub open spec fn route_next(v: StoreView, region_id: u64, entry: LogEntry) -> StoreView {
    if !v.has_region(region_id) {
        v
    } else {
        let i = v.position(region_id);
        let t = v.replicas[i];
        match entry.cmd {
            Command::Admin(AdminCommand::Split { split_key, new_region_id, new_peer_ids }) => {
                if v.has_region(new_region_id) {
                    v
                } else if entry_error(t, entry) is Some {
                    v.put(i, step(t, entry))
                } else {
                    v.put(i, step(t, entry)).add(
                        split_off(
                            t,
                            split_right(t.local, split_key@, new_region_id, new_peer_ids@),
                        ),
                    )
                }
            },
            Command::Admin(AdminCommand::CommitMerge { source, entries }) => {
                merge_route_next(v, i, entry, source@, entries@)
            },
            _ => v.put(i, step(t, entry)),
        }
    }
}

/// Whether `applied` is what the entry, having taken effect on the store,
/// reports.
pub open spec fn route_reports(applied: Applied, v: StoreView, region_id: u64, entry: LogEntry) -> bool {
    let t = v.replicas[v.position(region_id)];
    match entry.cmd {
        Command::Admin(AdminCommand::CommitMerge { source, entries }) => {
            let s = v.replicas[v.position(source.region.id)];
            &&& applied matches Applied::Merged { source_id, replayed }
            &&& applied->source_id == source.region.id
            &&& applied->replayed@ == if s.local.state == PeerState::Tombstone {
                Seq::<usize>::empty()
            } else {
                replayed_writes(s, entries@, frozen_commit(source@))
            }
        },
        _ => reports(applied, t, entry),
    }
}

/// In a well-formed store a region's replica stands where `position` says.
pub proof fn lemma_position(v: StoreView, region_id: u64, i: int)
    requires
        v.wf(),
        0 <= i < v.replicas.len(),
        v.replicas[i].local.region.id == region_id,
    ensures
        v.has_region(region_id),
        v.position(region_id) == i,
{
    let p = v.position(region_id);
    if p < i {
        assert(v.replicas[p].local.region.id != v.replicas[i].local.region.id);
    } else if i < p {
        assert(v.replicas[i].local.region.id != v.replicas[p].local.region.id);
    }
}

/// Replacing a replica by one that is well formed, of the same store and
/// region, and that holds no key it did not hold before, keeps a store well
/// formed.
pub proof fn lemma_put_keeps_wf(v: StoreView, i: int, replica: ReplicaView)
    requires
        v.wf(),
        0 <= i < v.replicas.len(),
        replica.wf(),
        replica.store_id == v.store_id,
        replica.local.region.id == v.replicas[i].local.region.id,
        forall|key: Seq<u8>|
            replica.local.live() && #[trigger] replica.local.region.contains(key) ==> v.holds(
                i,
                key,
            ),
    ensures
        v.put(i, replica).wf(),
{
    let after = v.put(i, replica);
    assert forall|a: int, b: int, key: Seq<u8>| #[trigger]
        after.holds(a, key) && #[trigger] after.holds(b, key) implies a == b by {
        assert(v.holds(a, key));
        assert(v.holds(b, key));
    }
    assert forall|a: int, b: int| 0 <= a < b < after.replicas.len() implies (
    #[trigger] after.replicas[a]).local.region.id != (#[trigger] after.replicas[b]).local.region.id by {
        assert(v.replicas[a].local.region.id != v.replicas[b].local.region.id);
    }
}

/// Replacing a replica by one that holds every key it held before leaves
/// no key without a live replica.
pub proof fn lemma_put_keeps_owners(v: StoreView, i: int, replica: ReplicaView)
    requires
        0 <= i < v.replicas.len(),
        forall|key: Seq<u8>| #[trigger]
            v.holds(i, key) ==> replica.local.live() && replica.local.region.contains(key),
    ensures
        keeps_owners(v, v.put(i, replica)),
{
    let after = v.put(i, replica);
    assert forall|key: Seq<u8>| #[trigger] v.has_owner(key) implies after.has_owner(key) by {
        let k = choose|k: int| v.holds(k, key);
        assert(after.holds(k, key));
    }
}

/// A store that keeps the owners of a covered store is covered.
pub proof fn lemma_cover_kept(before: StoreView, after: StoreView)
    requires
        before.covers(),
        keeps_owners(before, after),
    ensures
        after.covers(),
{
    assert forall|key: Seq<u8>| #[trigger] after.has_owner(key) by {
        assert(before.has_owner(key));
    }
}

/// Keeping owners twice over keeps them.
pub proof fn lemma_keeps_owners_transitive(a: StoreView, b: StoreView, c: StoreView)
    requires
        keeps_owners(a, b),
        keeps_owners(b, c),
    ensures
        keeps_owners(a, c),
{
    assert forall|key: Seq<u8>| #[trigger] a.has_owner(key) implies c.has_owner(key) by {
        assert(b.has_owner(key));
    }
}

/// An entry that neither splits nor merges leaves the replica where it is:
/// same store, same region, same range, and not revived.
pub proof fn lemma_step_frame(t: ReplicaView, entry: LogEntry)
    requires
        !(entry.cmd matches Command::Admin(AdminCommand::Split { .. })),
        !(entry.cmd matches Command::Admin(AdminCommand::CommitMerge { .. })),
    ensures
        step(t, entry).store_id == t.store_id,
        step(t, entry).local.region.id == t.local.region.id,
        step(t, entry).local.region.start_key == t.local.region.start_key,
        step(t, entry).local.region.end_key == t.local.region.end_key,
        step(t, entry).local.live() ==> t.local.live(),
        t.local.live() && !(entry.cmd matches Command::Admin(AdminCommand::ChangePeer { .. }))
            ==> step(t, entry).local.live(),
{
}

impl Store {
    /// Hands a committed entry of region `region_id` to the replica that the
    /// store holds of it. A split adds the replica of the new region. The
    /// commit of a merge first brings the source's replica on this store to
    /// the point at which the merge was prepared, replaying what it lacks,
    /// and retires it; only then does the target absorb the source's range.
    pub fn apply(&mut self, region_id: u64, entry: &LogEntry) -> (r: Result<Applied, MergeError>)
        requires
            old(self)@.wf(),
        ensures
            final(self)@.wf(),
            final(self)@ == route_next(old(self)@, region_id, *entry),
            match route_error(old(self)@, region_id, *entry) {
                Some(e) => r == Err::<Applied, MergeError>(e),
                None => r is Ok && route_reports(r->Ok_0, old(self)@, region_id, *entry),
            },
            !(r matches Ok(Applied::Removed)) ==> keeps_owners(old(self)@, final(self)@),
            old(self)@.covers() && !(r matches Ok(Applied::Removed)) ==> final(self)@.covers(),
    {
        let i = match self.find(region_id) {
            Some(i) => i,
            None => {
                return Err(MergeError::RegionNotFound);
            },
        };
        proof {
            lemma_position(self@, region_id, i as int);
        }
        let ghost start = self@;
        let r = match &entry.cmd {
            Command::Admin(AdminCommand::Split { split_key, new_region_id, new_peer_ids }) => {
                self.apply_split_at(i, entry)
            },
            Command::Admin(AdminCommand::CommitMerge { source, entries }) => {
                self.apply_commit_at(i, entry)
            },
            _ => {
                let ghost before = self@;
                let r = self.replicas[i].on_apply(entry);
                proof {
                    let t = before.replicas[i as int];
                    assert(self@.replicas =~= before.replicas.update(i as int, step(t, *entry)));
                    lemma_step_frame(t, *entry);
                    lemma_put_keeps_wf(before, i as int, step(t, *entry));
                    if !(r matches Ok(Applied::Removed)) {
                        lemma_put_keeps_owners(before, i as int, step(t, *entry));
                    }
                }
                r
            },
        };
        proof {
            if start.covers() && !(r matches Ok(Applied::Removed)) {
                lemma_cover_kept(start, self@);
            }
        }
        r
    }

    /// The split of the replica at `i`.
    fn apply_split_at(&mut self, i: usize, entry: &LogEntry) -> (r: Result<Applied, MergeError>)
        requires
            old(self)@.wf(),
            i < old(self)@.replicas.len(),
            entry.cmd matches Command::Admin(AdminCommand::Split { .. }),
        ensures
            final(self)@.wf(),
            final(self)@ == route_next(
                old(self)@,
                old(self)@.replicas[i as int].local.region.id,
                *entry,
            ),
            match route_error(old(self)@, old(self)@.replicas[i as int].local.region.id, *entry) {
                Some(e) => r == Err::<Applied, MergeError>(e),
                None => r is Ok && route_reports(
                    r->Ok_0,
                    old(self)@,
                    old(self)@.replicas[i as int].local.region.id,
                    *entry,
                ),
            },
            keeps_owners(old(self)@, final(self)@),
    {
        let ghost before = self@;
        let ghost t = before.replicas[i as int];
        proof {
            lemma_position(before, t.local.region.id, i as int);
        }
        let new_id = match &entry.cmd {
            Command::Admin(AdminCommand::Split { new_region_id, .. }) => *new_region_id,
            _ => 0,
        };
        if self.find(new_id).is_some() {
            return Err(MergeError::RegionExists);
        }
        match self.replicas[i].on_apply(entry) {
            Ok(Applied::Split { right }) => {
                let copy = right.clone();
                self.replicas.push(right);
                proof {
                    let next = step(t, *entry);
                    assert(self@.replicas =~= before.replicas.update(i as int, next).push(copy@));
                    lemma_split_store(before, i as int, *entry);
                }
                Ok(Applied::Split { right: copy })
            },
            Ok(other) => {
                assert(false);
                Ok(other)
            },
            Err(e) => {
                proof {
                    assert(self@.replicas =~= before.replicas.update(i as int, step(t, *entry)));
                    lemma_put_keeps_wf(before, i as int, step(t, *entry));
                    lemma_put_keeps_owners(before, i as int, step(t, *entry));
                }
                Err(e)
            },
        }
    }

    /// The commit of a merge into the replica at `i`.
    fn apply_commit_at(&mut self, i: usize, entry: &LogEntry) -> (r: Result<Applied, MergeError>)
        requires
            old(self)@.wf(),
            i < old(self)@.replicas.len(),
            entry.cmd matches Command::Admin(AdminCommand::CommitMerge { .. }),
        ensures
            final(self)@.wf(),
            final(self)@ == route_next(
                old(self)@,
                old(self)@.replicas[i as int].local.region.id,
                *entry,
            ),
            match route_error(old(self)@, old(self)@.replicas[i as int].local.region.id, *entry) {
                Some(e) => r == Err::<Applied, MergeError>(e),
                None => r is Ok && route_reports(
                    r->Ok_0,
                    old(self)@,
                    old(self)@.replicas[i as int].local.region.id,
                    *entry,
                ),
            },
            keeps_owners(old(self)@, final(self)@),
    {
        let ghost before = self@;
        let ghost t = before.replicas[i as int];
        proof {
            lemma_position(before, t.local.region.id, i as int);
        }
        match &entry.cmd {
            Command::Admin(AdminCommand::CommitMerge { source, entries }) => {
                let in_order = self.replicas[i].applied_index < u64::MAX && entry.index
                    == self.replicas[i].applied_index + 1;
                if !in_order || self.replicas[i].local.check_commit_merge(
                    &entry.epoch,
                    source,
                ).is_some() {
                    let r = self.replicas[i].on_apply(entry);
                    proof {
                        assert(self@.replicas =~= before.replicas.update(i as int, step(t, *entry)));
                        lemma_put_keeps_wf(before, i as int, step(t, *entry));
                        lemma_put_keeps_owners(before, i as int, step(t, *entry));
                    }
                    return r;
                }
                let j = match self.find(source.region.id) {
                    Some(j) => j,
                    None => {
                        return Err(MergeError::SourceNotReady);
                    },
                };
                proof {
                    lemma_position(before, source.region.id, j as int);
                }
                let mut merged = self.replicas[i].local.clone();
                let _ = merged.apply_commit_merge(&entry.epoch, source);
                if self.is_blocked(&merged.region, i, j) {
                    return Err(MergeError::RangeOverlap);
                }
                let ghost s = before.replicas[j as int];
                let retired = self.replicas[j].on_commit_merge(source, entries);
                let ghost caught_up = self@;
                proof {
                    let s2 = after_source_commit(s, source@, entries@);
                    assert(caught_up.replicas =~= before.replicas.update(j as int, s2));
                    lemma_replay_frame(s, entries@, frozen_commit(source@));
                    lemma_put_keeps_wf(before, j as int, s2);
                }
                match retired {
                    Ok(writes) => {
                        let r = self.replicas[i].on_apply(entry);
                        proof {
                            assert(self@.replicas =~= caught_up.replicas.update(
                                i as int,
                                step(t, *entry),
                            ));
                            lemma_merge_store(before, i as int, j as int, *entry);
                        }
                        match r {
                            Ok(Applied::Merged { source_id, replayed }) => Ok(
                                Applied::Merged { source_id, replayed: writes },
                            ),
                            other => {
                                assert(false);
                                other
                            },
                        }
                    },
                    Err(MergeError::SourceNotReady) => {
                        proof {
                            lemma_put_keeps_owners(
                                before,
                                j as int,
                                after_source_commit(s, source@, entries@),
                            );
                        }
                        Err(MergeError::SourceNotReady)
                    },
                    Err(e) => {
                        self.replicas[i].applied_index = entry.index;
                        proof {
                            assert(self@.replicas =~= caught_up.replicas.update(
                                i as int,
                                consumed(t, *entry),
                            ));
                            lemma_put_keeps_wf(caught_up, i as int, consumed(t, *entry));
                            lemma_put_keeps_owners(
                                before,
                                j as int,
                                after_source_commit(s, source@, entries@),
                            );
                            lemma_put_keeps_owners(caught_up, i as int, consumed(t, *entry));
                            lemma_keeps_owners_transitive(before, caught_up, self@);
                        }
                        Err(e)
                    },
                }
            },
            _ => Err(MergeError::InvalidMerge),
        }
    }
}

/// A split that takes effect keeps a store well formed and leaves no key
/// without a live replica: the two halves hold exactly the keys of the
/// region that was split.
pub proof fn lemma_split_store(v: StoreView, i: int, entry: LogEntry)
    requires
        v.wf(),
        0 <= i < v.replicas.len(),
        entry.cmd matches Command::Admin(AdminCommand::Split { .. }),
        entry_error(v.replicas[i], entry) is None,
        !v.has_region(entry.cmd->Admin_0->new_region_id),
        step(v.replicas[i], entry).wf(),
        split_off(
            v.replicas[i],
            split_right(
                v.replicas[i].local,
                entry.cmd->Admin_0->split_key@,
                entry.cmd->Admin_0->new_region_id,
                entry.cmd->Admin_0->new_peer_ids@,
            ),
        ).wf(),
    ensures
        route_next(v, v.replicas[i].local.region.id, entry).wf(),
        keeps_owners(v, route_next(v, v.replicas[i].local.region.id, entry)),
{
    let t = v.replicas[i];
    lemma_position(v, t.local.region.id, i);
    let split_key = entry.cmd->Admin_0->split_key@;
    let new_region_id = entry.cmd->Admin_0->new_region_id;
    let new_peer_ids = entry.cmd->Admin_0->new_peer_ids@;
    let left = step(t, entry);
    let right = split_off(t, split_right(t.local, split_key, new_region_id, new_peer_ids));
    let after = route_next(v, t.local.region.id, entry);
    let n = v.replicas.len() as int;
    assert(after.replicas =~= v.replicas.update(i, left).push(right));
    assert forall|key: Seq<u8>|
        (t.local.region.contains(key) <==> left.local.region.contains(key)
            || right.local.region.contains(key)) && !(left.local.region.contains(key)
            && right.local.region.contains(key)) by {
        lemma_split_partitions(t.local.region, split_key, key);
    }
    assert forall|a: int, b: int, key: Seq<u8>| #[trigger]
        after.holds(a, key) && #[trigger] after.holds(b, key) implies a == b by {
        let a0 = if a == n {
            i
        } else {
            a
        };
        let b0 = if b == n {
            i
        } else {
            b
        };
        assert(v.holds(a0, key));
        assert(v.holds(b0, key));
    }
    assert forall|a: int, b: int| 0 <= a < b < after.replicas.len() implies (
    #[trigger] after.replicas[a]).local.region.id != (#[trigger] after.replicas[b]).local.region.id by {
        if b == n {
            assert(v.replicas[a].local.region.id != new_region_id);
        } else {
            assert(v.replicas[a].local.region.id != v.replicas[b].local.region.id);
        }
    }
    assert forall|a: int| 0 <= a < after.replicas.len() implies (#[trigger] after.replicas[a]).wf()
        && after.replicas[a].store_id == after.store_id by {
        if a != n && a != i {
            assert(v.replicas[a].wf());
        }
    }
    {
        assert forall|key: Seq<u8>| #[trigger] v.has_owner(key) implies after.has_owner(key) by {
            let k = choose|k: int| v.holds(k, key);
            if k == i {
                if left.local.region.contains(key) {
                    assert(after.holds(i, key));
                } else {
                    assert(after.holds(n, key));
                }
            } else {
                assert(after.holds(k, key));
            }
        }
    }
}

/// A merge that takes effect keeps a store well formed and leaves no key
/// without a live replica: the target then holds the keys of both, and the
/// source none.
pub proof fn lemma_merge_store(v: StoreView, i: int, j: int, entry: LogEntry)
    requires
        v.wf(),
        0 <= i < v.replicas.len(),
        0 <= j < v.replicas.len(),
        entry.cmd matches Command::Admin(AdminCommand::CommitMerge { .. }),
        v.replicas[j].local.region.id == entry.cmd->Admin_0->source.region.id,
        route_error(v, v.replicas[i].local.region.id, entry) is None,
        step(v.replicas[i], entry).wf(),
        after_source_commit(
            v.replicas[j],
            entry.cmd->Admin_0->source@,
            entry.cmd->Admin_0->entries@,
        ).wf(),
    ensures
        route_next(v, v.replicas[i].local.region.id, entry).wf(),
        keeps_owners(v, route_next(v, v.replicas[i].local.region.id, entry)),
{
    let t = v.replicas[i];
    let s = v.replicas[j];
    let source = entry.cmd->Admin_0->source@;
    let entries = entry.cmd->Admin_0->entries@;
    lemma_position(v, t.local.region.id, i);
    lemma_position(v, source.region.id, j);
    let s2 = after_source_commit(s, source, entries);
    let t2 = step(t, entry);
    let after = route_next(v, t.local.region.id, entry);
    assert(after.replicas =~= v.replicas.update(j, s2).update(i, t2));
    lemma_replay_frame(s, entries, frozen_commit(source));
    assert forall|key: Seq<u8>|
        t2.local.region.contains(key) <==> t.local.region.contains(key) || source.region.contains(
            key,
        ) by {
        lemma_absorb_unites(t.local.region, source.region, key);
    }
    assert(i != j);
    assert forall|a: int, b: int, key: Seq<u8>| #[trigger]
        after.holds(a, key) && #[trigger] after.holds(b, key) implies a == b by {
        if a != b {
            if a == i {
                if t.local.region.contains(key) {
                    assert(v.holds(a, key) && v.holds(b, key));
                } else {
                    assert(v.holds(b, key) && !set![i, j].contains(b) && absorb(
                        t.local.region,
                        source.region,
                    ).contains(key));
                }
            } else if b == i {
                if t.local.region.contains(key) {
                    assert(v.holds(a, key) && v.holds(b, key));
                } else {
                    assert(v.holds(a, key) && !set![i, j].contains(a) && absorb(
                        t.local.region,
                        source.region,
                    ).contains(key));
                }
            } else {
                assert(v.holds(a, key) && v.holds(b, key));
            }
        }
    }
    assert forall|a: int, b: int| 0 <= a < b < after.replicas.len() implies (
    #[trigger] after.replicas[a]).local.region.id != (#[trigger] after.replicas[b]).local.region.id by {
        assert(v.replicas[a].local.region.id != v.replicas[b].local.region.id);
    }
    assert forall|a: int| 0 <= a < after.replicas.len() implies (#[trigger] after.replicas[a]).wf()
        && after.replicas[a].store_id == after.store_id by {
        assert(v.replicas[a].wf());
    }
    {
        assert forall|key: Seq<u8>| #[trigger] v.has_owner(key) implies after.has_owner(key) by {
            let k = choose|k: int| v.holds(k, key);
            if k == j || k == i {
                lemma_absorb_unites(t.local.region, source.region, key);
                if k == j {
                    let caught_up = crate::catch_up::replay(s, entries, frozen_commit(source));
                    assert(crate::catch_up::at_merge_point(caught_up, source));
                    assert(source.region.contains(key));
                }
                assert(t2.local.region.contains(key));
                assert(after.replicas[i] == t2);
                assert(after.holds(i, key));
            } else {
                assert(after.holds(k, key));
            }
        }
    }
}

impl Store {
    /// Marks the replica of the snapshot's region as receiving the snapshot,
    /// before any of the snapshot's data are written. A snapshot that the
    /// store would not take in is refused here already, and nothing is
    /// marked.
    pub fn begin_snapshot(&mut self, snap: &Snapshot) -> (r: Result<(), MergeError>)
        requires
            old(self)@.wf(),
        ensures
            final(self)@.wf(),
            match store_snapshot_error(old(self)@, snap@) {
                Some(e) => r == Err::<(), MergeError>(e) && final(self)@ == old(self)@,
                None => r is Ok && final(self)@ == store_receiving(old(self)@, snap@),
            },
    {
        if let Some(e) = self.check_snapshot(snap) {
            return Err(e);
        }
        let ghost before = self@;
        match self.find(snap.local.region.id) {
            Some(own) => {
                proof {
                    lemma_position(before, snap@.local.region.id, own as int);
                }
                let _ = self.replicas[own].begin_snapshot(snap);
                proof {
                    let marked = receiving(before.replicas[own as int]);
                    assert(self@.replicas =~= before.replicas.update(own as int, marked));
                    lemma_put_keeps_wf(before, own as int, marked);
                }
            },
            None => {},
        }
        Ok(())
    }

    /// Gives up receiving a snapshot of region `region_id`: the replica is
    /// what it was before. Says whether a replica was receiving one.
    pub fn abort_snapshot(&mut self, region_id: u64) -> (r: bool)
        requires
            old(self)@.wf(),
        ensures
            final(self)@.wf(),
            r == (old(self)@.has_region(region_id) && old(self)@.replicas[old(self)@.position(
                region_id,
            )].local.state == PeerState::Applying),
            final(self)@ == if old(self)@.has_region(region_id) {
                old(self)@.put(
                    old(self)@.position(region_id),
                    resumed(old(self)@.replicas[old(self)@.position(region_id)]),
                )
            } else {
                old(self)@
            },
    {
        let ghost before = self@;
        match self.find(region_id) {
            Some(own) => {
                proof {
                    lemma_position(before, region_id, own as int);
                }
                let r = self.replicas[own].abort_snapshot();
                proof {
                    let back = resumed(before.replicas[own as int]);
                    assert(self@.replicas =~= before.replicas.update(own as int, back));
                    lemma_put_keeps_wf(before, own as int, back);
                }
                r
            },
            None => false,
        }
    }

    /// Why the store would not take the snapshot in, if it would not.
    pub fn check_snapshot(&self, snap: &Snapshot) -> (r: Option<MergeError>)
        requires
            self@.wf(),
        ensures
            r == store_snapshot_error(self@, snap@),
    {
        if !snap.is_valid() {
            return Some(MergeError::CorruptState);
        }
        let ghost before = self@;
        let count = self.replicas.len();
        let own = match self.find(snap.local.region.id) {
            Some(i) => i,
            None => count,
        };
        proof {
            if own < count {
                lemma_position(before, snap@.local.region.id, own as int);
            }
            assert(own == own_position(before, snap@));
        }
        if own < count {
            if let Some(e) = self.replicas[own].check_snapshot(snap) {
                return Some(e);
            }
        }
        let mut k: usize = 0;
        while k < count
            invariant
                before == self@,
                snap@.valid(),
                count == before.replicas.len(),
                own == own_position(before, snap@),
                own < count ==> crate::snapshot::snapshot_error(
                    before.replicas[own as int],
                    snap@,
                ) is None,
                0 <= k <= count,
                forall|a: int|
                    0 <= a < k && hit(before, a, own as int, snap@) ==> absorbed_by(
                        #[trigger] before.replicas[a],
                        snap@,
                    ),
            decreases count - k,
        {
            if k != own && self.replicas[k].local.is_live() {
                if self.replicas[k].local.region.overlaps(&snap.local.region)
                    && !self.replicas[k].is_absorbed_by(snap) {
                    assert(hit(before, k as int, own as int, snap@) && !absorbed_by(
                        before.replicas[k as int],
                        snap@,
                    ));
                    return Some(MergeError::RangeOverlap);
                }
            }
            k += 1;
        }
        None
    }

    /// Takes in a snapshot of one region. Live replicas of other regions
    /// whose range the snapshot runs into must be sources of a merge into
    /// the snapshot's region that the snapshot already includes; they are
    /// retired, which completes their merge without the commit being
    /// replayed. Any other overlap refuses the snapshot. A store without a
    /// replica of the region gets one. Returns the ids of the regions
    /// retired.
    pub fn apply_snapshot(&mut self, snap: &Snapshot) -> (r: Result<Vec<u64>, MergeError>)
        requires
            old(self)@.wf(),
        ensures
            final(self)@.wf(),
            match store_snapshot_error(old(self)@, snap@) {
                Some(e) => r == Err::<Vec<u64>, MergeError>(e) && final(self)@ == old(self)@,
                None => r is Ok && final(self)@ == (StoreView {
                    replicas: snapshot_replicas(old(self)@, snap@),
                    ..old(self)@
                }) && r->Ok_0@ == retired_ids(old(self)@, snap@),
            },
            r is Ok ==> retired_keys_kept(old(self)@, final(self)@, snap@),
    {
        if let Some(e) = self.check_snapshot(snap) {
            return Err(e);
        }
        let ghost before = self@;
        let count = self.replicas.len();
        let own = match self.find(snap.local.region.id) {
            Some(i) => i,
            None => count,
        };
        proof {
            if own < count {
                lemma_position(before, snap@.local.region.id, own as int);
            }
            assert(own == own_position(before, snap@));
        }
        let mut retired: Vec<u64> = Vec::new();
        let mut k: usize = 0;
        while k < count
            invariant
                before.wf(),
                snap@.valid(),
                self@.store_id == before.store_id,
                count == before.replicas.len(),
                self@.replicas.len() == count,
                0 <= k <= count,
                forall|a: int|
                    0 <= a < count ==> #[trigger] self@.replicas[a] == if a < k && hit(
                        before,
                        a,
                        own as int,
                        snap@,
                    ) {
                        entombed(before.replicas[a])
                    } else {
                        before.replicas[a]
                    },
                retired@ == retired_ids_by(before, snap@, own as int, k as int),
            decreases count - k,
        {
            let ghost current = self@;
            assert(current.replicas[k as int] == before.replicas[k as int]);
            assert(before.replicas[k as int].wf());
            if k != own && self.replicas[k].local.is_live() {
                if self.replicas[k].local.region.overlaps(&snap.local.region) {
                    self.replicas[k].local.state = PeerState::Tombstone;
                    self.replicas[k].local.merge_state = None;
                    retired.push(self.replicas[k].local.region.id);
                    assert(self@.replicas =~= current.replicas.update(
                        k as int,
                        entombed(before.replicas[k as int]),
                    ));
                }
            }
            k += 1;
        }
        let ghost swept = self@;
        if own < count {
            assert(swept.replicas[own as int] == before.replicas[own as int]);
            let _ = self.replicas[own].apply_snapshot(snap);
            assert(self@.replicas =~= swept.replicas.update(
                own as int,
                snap@.restored(before.store_id),
            ));
        } else {
            let fresh = Replica {
                store_id: self.store_id,
                local: snap.local.clone(),
                applied_index: snap.index,
                truncated_index: snap.index,
                merge_ticks: 0,
            };
            self.replicas.push(fresh);
            assert(self@.replicas =~= swept.replicas.push(snap@.restored(before.store_id)));
        }
        proof {
            assert(self@.replicas =~= snapshot_replicas(before, snap@));
            lemma_snapshot_store(before, snap@);
        }
        Ok(retired)
    }
}

} // verus!
