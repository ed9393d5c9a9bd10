//! Snapshots that bring a replica up to date in one step, and what they do
//! to a merge that is under way.

use crate::command::MergeError;
use crate::keys::lemma_lt_le_transitive;
use crate::proposal::reaches_over;
use crate::region::RegionView;
use crate::replica::{Replica, ReplicaView};
use crate::state::{LocalStateView, PeerState, RegionLocalState};
use crate::store::{lemma_position, StoreView};
use vstd::prelude::*;

verus! {

/// The state of a region at one log index, as a replica that held it sends
/// it to one that lags.
#[derive(Debug)]
pub struct Snapshot {
    /// What the sender persisted about the region.
    pub local: RegionLocalState,
    /// The last log index that the state includes.
    pub index: u64,
}

/// A snapshot as plain values.
pub ghost struct SnapshotView {
    pub local: LocalStateView,
    pub index: u64,
}

impl View for Snapshot {
    type V = SnapshotView;

    open spec fn view(&self) -> SnapshotView {
        SnapshotView { local: self.local@, index: self.index }
    }
}

impl SnapshotView {
    /// The state is one that a serving replica can hold at that index.
    pub open spec fn valid(self) -> bool {
        &&& self.local.wf()
        &&& self.local.serving()
        &&& self.local.merge_state matches Some(m) ==> m.commit <= self.index
    }

    /// The replica that holds exactly what the snapshot says.
    pub open spec fn restored(self, store_id: u64) -> ReplicaView {
        ReplicaView {
            store_id,
            local: self.local,
            applied_index: self.index,
            truncated_index: self.index,
            merge_ticks: 0,
        }
    }
}

/// Why the replica does not take the snapshot in, if it does not.
pub open spec fn snapshot_error(v: ReplicaView, snap: SnapshotView) -> Option<MergeError> {
    if v.local.state == PeerState::Tombstone {
        Some(MergeError::RegionNotFound)
    } else if !snap.valid() || snap.local.region.id != v.local.region.id {
        Some(MergeError::CorruptState)
    } else if snap.index <= v.applied_index || !snap.local.region.epoch.not_before(
        v.local.region.epoch,
    ) {
        Some(MergeError::StaleSnapshot)
    } else {
        None
    }
}

/// The replica while it receives a snapshot.
pub open spec fn receiving(v: ReplicaView) -> ReplicaView {
    ReplicaView { local: LocalStateView { state: PeerState::Applying, ..v.local }, ..v }
}

/// The replica after it gave up receiving a snapshot.
pub open spec fn resumed(v: ReplicaView) -> ReplicaView {
    if v.local.state == PeerState::Applying {
        ReplicaView {
            local: LocalStateView {
                state: if v.local.merge_state is Some {
                    PeerState::Merging
                } else {
                    PeerState::Normal
                },
                ..v.local
            },
            ..v
        }
    } else {
        v
    }
}

/// The store after it marked the replica of the snapshot's region, if it
/// holds one, as receiving the snapshot.
pub open spec fn store_receiving(v: StoreView, snap: SnapshotView) -> StoreView {
    let own = own_position(v, snap);
    if own < v.replicas.len() {
        v.put(own, receiving(v.replicas[own]))
    } else {
        v
    }
}

/// The replica is the source of a merge into the snapshot's region, and the
/// snapshot's range reaches over the replica's: the snapshot was taken after
/// the merge.
pub open spec fn absorbed_by(r: ReplicaView, snap: SnapshotView) -> bool {
    &&& r.local.state == PeerState::Merging
    &&& r.local.merge_state matches Some(m) && m.target.id == snap.local.region.id
    &&& reaches_over(snap.local.region, r.local.region)
}

/// Replica `k` is live, is not the one at `own`, and shares a key with the
/// snapshot's range.
pub open spec fn hit(v: StoreView, k: int, own: int, snap: SnapshotView) -> bool {
    &&& 0 <= k < v.replicas.len()
    &&& k != own
    &&& v.replicas[k].local.live()
    &&& v.replicas[k].local.region.overlaps(snap.local.region)
}

/// Where the snapshot's region stands in the store; past the end if the
/// store has no replica of it.
pub open spec fn own_position(v: StoreView, snap: SnapshotView) -> int {
    if v.has_region(snap.local.region.id) {
        v.position(snap.local.region.id)
    } else {
        v.replicas.len() as int
    }
}

/// Why the store does not take the snapshot in, if it does not.
pub open spec fn store_snapshot_error(v: StoreView, snap: SnapshotView) -> Option<MergeError> {
    let own = own_position(v, snap);
    if !snap.valid() {
        Some(MergeError::CorruptState)
    } else if own < v.replicas.len() && snapshot_error(v.replicas[own], snap) is Some {
        snapshot_error(v.replicas[own], snap)
    } else if exists|k: int| hit(v, k, own, snap) && !absorbed_by(#[trigger] v.replicas[k], snap) {
        Some(MergeError::RangeOverlap)
    } else {
        None
    }
}

/// Every key of a replica that the snapshot retires is held, in `after`, by
/// the snapshot's region, and the retired replica is live no more.
pub open spec fn retired_keys_kept(before: StoreView, after: StoreView, snap: SnapshotView) -> bool {
    forall|k: int, key: Seq<u8>|
        hit(before, k, own_position(before, snap), snap) && #[trigger] before.holds(k, key)
            ==> after.owns(snap.local.region.id, key) && !after.replicas[k].local.live()
}

/// A replica retired.
pub open spec fn entombed(r: ReplicaView) -> ReplicaView {
    ReplicaView {
        local: LocalStateView { state: PeerState::Tombstone, merge_state: None, ..r.local },
        ..r
    }
}

/// The replicas after the store took the snapshot in: the region's own
/// replica holds what the snapshot says, and every other live replica whose
/// range the snapshot runs into is retired.
pub open spec fn snapshot_replicas(v: StoreView, snap: SnapshotView) -> Seq<ReplicaView> {
    let own = own_position(v, snap);
    Seq::new(
        if own < v.replicas.len() {
            v.replicas.len()
        } else {
            v.replicas.len() + 1
        },
        |k: int|
            if k == own {
                snap.restored(v.store_id)
            } else if hit(v, k, own, snap) {
                entombed(v.replicas[k])
            } else {
                v.replicas[k]
            },
    )
}

/// The ids of the regions that a snapshot retires among the first `n`
/// replicas, in the order in which the store holds them. `own` is where the
/// snapshot's own region stands.
pub open spec fn retired_ids_by(v: StoreView, snap: SnapshotView, own: int, n: int) -> Seq<u64>
    decreases n,
{
    if n <= 0 {
        Seq::empty()
    } else if hit(v, n - 1, own, snap) {
        retired_ids_by(v, snap, own, n - 1).push(v.replicas[n - 1].local.region.id)
    } else {
        retired_ids_by(v, snap, own, n - 1)
    }
}

/// The ids of the regions that the snapshot retires, in the order in which
/// the store holds them.
pub open spec fn retired_ids(v: StoreView, snap: SnapshotView) -> Seq<u64> {
    retired_ids_by(v, snap, own_position(v, snap), v.replicas.len() as int)
}

/// A range that reaches over another holds every key of it.
pub proof fn lemma_reaches_over(outer: RegionView, inner: RegionView, key: Seq<u8>)
    requires
        reaches_over(outer, inner),
        inner.contains(key),
    ensures
        outer.contains(key),
{
    if outer.start_key != inner.start_key {
        if inner.start_key != key {
            crate::keys::lemma_lt_transitive(outer.start_key, inner.start_key, key);
        }
    }
    if outer.end_key.len() != 0 {
        lemma_lt_le_transitive(key, inner.end_key, outer.end_key);
    }
}

impl Clone for Snapshot {
    fn clone(&self) -> (r: Self)
        ensures
            r@ == self@,
    {
        Snapshot { local: self.local.clone(), index: self.index }
    }
}

impl Snapshot {
    /// Whether the state is one that a serving replica can hold at that
    /// index.
    pub fn is_valid(&self) -> (r: bool)
        ensures
            r == self@.valid(),
    {
        if !self.local.is_well_formed() || !self.local.is_serving() {
            return false;
        }
        match &self.local.merge_state {
            Some(m) => m.commit <= self.index,
            None => true,
        }
    }
}

impl Replica {
    /// Why this replica would not take the snapshot in, if it would not.
    pub fn check_snapshot(&self, snap: &Snapshot) -> (r: Option<MergeError>)
        ensures
            r == snapshot_error(self@, snap@),
    {
        if self.local.state == PeerState::Tombstone {
            Some(MergeError::RegionNotFound)
        } else if !snap.is_valid() || snap.local.region.id != self.local.region.id {
            Some(MergeError::CorruptState)
        } else if snap.index <= self.applied_index || snap.local.region.epoch.version
            < self.local.region.epoch.version || snap.local.region.epoch.conf_ver
            < self.local.region.epoch.conf_ver {
            Some(MergeError::StaleSnapshot)
        } else {
            None
        }
    }

    /// Marks the replica as receiving the snapshot, before any of the
    /// snapshot's data are written. Until the snapshot is taken in the
    /// replica applies nothing. A merge record is kept as it is: only the
    /// snapshot itself, once taken in, says what becomes of the merge.
    pub fn begin_snapshot(&mut self, snap: &Snapshot) -> (r: Result<(), MergeError>)
        ensures
            match snapshot_error(old(self)@, snap@) {
                Some(e) => r == Err::<(), MergeError>(e) && final(self)@ == old(self)@,
                None => r is Ok && final(self)@ == receiving(old(self)@),
            },
            old(self)@.wf() ==> final(self)@.wf(),
    {
        if let Some(e) = self.check_snapshot(snap) {
            return Err(e);
        }
        self.local.state = PeerState::Applying;
        Ok(())
    }

    /// Gives up receiving a snapshot: the replica is what it was before,
    /// merging if it holds a merge record and normal if not. A replica that
    /// receives no snapshot is left as it is.
    pub fn abort_snapshot(&mut self) -> (r: bool)
        ensures
            r == (old(self)@.local.state == PeerState::Applying),
            final(self)@ == resumed(old(self)@),
            old(self)@.wf() ==> final(self)@.wf(),
    {
        if self.local.state != PeerState::Applying {
            return false;
        }
        self.local.state = match &self.local.merge_state {
            Some(_) => PeerState::Merging,
            None => PeerState::Normal,
        };
        true
    }

    /// Takes the snapshot in: the replica then holds what the snapshot says,
    /// has applied and compacted its log up to the snapshot's index, and its
    /// merge timer starts anew. A merge under way stays under way exactly if
    /// the snapshot says so. A snapshot that is malformed, of another region
    /// or not ahead of the replica is refused.
    pub fn apply_snapshot(&mut self, snap: &Snapshot) -> (r: Result<(), MergeError>)
        ensures
            match snapshot_error(old(self)@, snap@) {
                Some(e) => r == Err::<(), MergeError>(e) && final(self)@ == old(self)@,
                None => r is Ok && final(self)@ == snap@.restored(old(self)@.store_id),
            },
            old(self)@.wf() ==> final(self)@.wf(),
            r is Ok ==> final(self)@.local.region.epoch.not_before(old(self)@.local.region.epoch),
    {
        if let Some(e) = self.check_snapshot(snap) {
            return Err(e);
        }
        self.local = snap.local.clone();
        self.applied_index = snap.index;
        self.truncated_index = snap.index;
        self.merge_ticks = 0;
        Ok(())
    }

    /// Whether this replica is the source of a merge into the snapshot's
    /// region and the snapshot's range reaches over its own.
    pub fn is_absorbed_by(&self, snap: &Snapshot) -> (r: bool)
        ensures
            r == absorbed_by(self@, snap@),
    {
        match &self.local.merge_state {
            Some(m) => self.local.state == PeerState::Merging && m.target.id
                == snap.local.region.id && snap.local.region.reaches_over(&self.local.region),
            None => false,
        }
    }
}

/// A store that took a snapshot in is well formed, and every key of a
/// replica that the snapshot retired is held by the snapshot's region.
pub proof fn lemma_snapshot_store(v: StoreView, snap: SnapshotView)
    requires
        v.wf(),
        store_snapshot_error(v, snap) is None,
    ensures
        (StoreView { replicas: snapshot_replicas(v, snap), ..v }).wf(),
        retired_keys_kept(v, StoreView { replicas: snapshot_replicas(v, snap), ..v }, snap),
{
    let own = own_position(v, snap);
    let after = StoreView { replicas: snapshot_replicas(v, snap), ..v };
    if own < v.replicas.len() {
        lemma_position(v, snap.local.region.id, own);
    }
    assert forall|a: int| 0 <= a < after.replicas.len() implies (#[trigger] after.replicas[a]).wf()
        && after.replicas[a].store_id == after.store_id by {
        if a != own {
            assert(v.replicas[a].wf());
        }
    }
    assert forall|a: int, b: int| 0 <= a < b < after.replicas.len() implies (
    #[trigger] after.replicas[a]).local.region.id != (#[trigger] after.replicas[b]).local.region.id by {
        if b == own && own == v.replicas.len() {
            assert(v.replicas[a].local.region.id != snap.local.region.id);
        } else {
            assert(v.replicas[a].local.region.id != v.replicas[b].local.region.id);
        }
    }
    assert forall|a: int, b: int, key: Seq<u8>| #[trigger]
        after.holds(a, key) && #[trigger] after.holds(b, key) implies a == b by {
        if a != b {
            if a == own {
                assert(v.replicas[b].local.region.contains(key) && snap.local.region.contains(
                    key,
                ));
                assert(hit(v, b, own, snap));
            } else if b == own {
                assert(v.replicas[a].local.region.contains(key) && snap.local.region.contains(
                    key,
                ));
                assert(hit(v, a, own, snap));
            } else {
                assert(v.holds(a, key) && v.holds(b, key));
            }
        }
    }
    assert forall|k: int, key: Seq<u8>|
        hit(v, k, own, snap) && #[trigger] v.holds(k, key) implies after.owns(
        snap.local.region.id,
        key,
    ) && !after.replicas[k].local.live() by {
        assert(absorbed_by(v.replicas[k], snap));
        lemma_reaches_over(snap.local.region, v.replicas[k].local.region, key);
        assert(after.holds(own, key));
    }
}

} // verus!
