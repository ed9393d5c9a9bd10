//! One replica of one region: its persisted state, how far it has applied
//! its log, and how far that log is compacted. Committed entries are applied
//! strictly in log order.

use crate::apply::{
    admission, after_change_peer, after_commit, after_prepare, after_rollback, change_peer_error,
    commit_error, lemma_absorb_keeps_wf, lemma_change_peer_keeps_wf, lemma_split_keeps_wf,
    prepare_error, rollback_error, split_error, split_left, split_right,
};
use crate::command::{AdminCommand, Command, CommandKind, ConfChange, LogEntry, MergeError};
use crate::region::Peer;
use crate::state::{LocalStateView, PeerState, RegionLocalState};
use vstd::prelude::*;

verus! {

/// One replica of one region on one store.
#[derive(Debug)]
pub struct Replica {
    /// The store this replica lives on.
    pub store_id: u64,
    /// What the replica persists about its region.
    pub local: RegionLocalState,
    /// The index of the last log entry applied.
    pub applied_index: u64,
    /// The log is compacted up to and including this index.
    pub truncated_index: u64,
    /// Ticks spent waiting since the merge was prepared or the last snapshot
    /// was taken in.
    pub merge_ticks: u64,
}

/// A replica as plain values.
pub ghost struct ReplicaView {
    pub store_id: u64,
    pub local: LocalStateView,
    pub applied_index: u64,
    pub truncated_index: u64,
    pub merge_ticks: u64,
}

impl View for Replica {
    type V = ReplicaView;

    open spec fn view(&self) -> ReplicaView {
        ReplicaView {
            store_id: self.store_id,
            local: self.local@,
            applied_index: self.applied_index,
            truncated_index: self.truncated_index,
            merge_ticks: self.merge_ticks,
        }
    }
}

/// What applying a committed entry did.
#[derive(Debug)]
pub enum Applied {
    /// A write was accepted; the key and value of the entry go to storage.
    Write,
    /// The region was split; `right` is the replica of the new region.
    Split { right: Replica },
    /// The replica set changed and this replica is still part of it.
    PeerChanged,
    /// The replica set changed and this replica left it: it is retired and
    /// the data of its range are to be removed.
    Removed,
    /// The region is now the source of a merge.
    Prepared,
    /// The region absorbed the region `source_id`, whose replicas are
    /// retired. No data are to be removed. `replayed` holds the positions,
    /// among the entries that the command carries, of the writes that a
    /// lagging replica of the source took in on the way: they go to storage
    /// too. A replica on its own replays nothing; the store, which holds the
    /// source's replica, fills this in.
    Merged { source_id: u64, replayed: Vec<usize> },
    /// The merge of this region was given up.
    RolledBack,
    /// The log was compacted as far as a pending merge allows.
    Compacted,
}

impl ReplicaView {
    /// The persisted state is well formed, the log is not compacted past
    /// what is applied, and while a merge is pending its prepare is applied.
    pub open spec fn wf(self) -> bool {
        &&& self.local.wf()
        &&& self.truncated_index <= self.applied_index
        &&& self.local.merge_state matches Some(m) ==> m.commit <= self.applied_index
    }

    /// How far the log may be compacted when asked to compact up to `index`:
    /// never past what is applied, and while a merge is pending never past
    /// the smallest index that every replica of the source holds.
    pub open spec fn compact_bound(self, index: u64) -> u64 {
        let applied = if index <= self.applied_index {
            index
        } else {
            self.applied_index
        };
        match self.local.merge_state {
            Some(m) => if applied <= m.min_index {
                applied
            } else {
                m.min_index
            },
            None => applied,
        }
    }

    /// Whether the change removes this replica itself.
    pub open spec fn removes_self(self, change: ConfChange, peer: Peer) -> bool {
        change == ConfChange::RemoveNode && peer.store_id == self.store_id
    }
}

/// Why the entry has no effect on the replica, if it has none.
pub open spec fn entry_error(v: ReplicaView, entry: LogEntry) -> Option<MergeError> {
    if entry.index != v.applied_index + 1 {
        Some(MergeError::OutOfOrder)
    } else {
        match entry.cmd {
            Command::Write { key, value } => {
                if admission(v.local, CommandKind::Write, entry.epoch) is Some {
                    admission(v.local, CommandKind::Write, entry.epoch)
                } else if !v.local.region.contains(key@) {
                    Some(MergeError::KeyNotInRegion)
                } else {
                    None
                }
            },
            Command::Admin(AdminCommand::Split { split_key, new_region_id, new_peer_ids }) => {
                split_error(v.local, entry.epoch, split_key@, new_region_id, new_peer_ids@)
            },
            Command::Admin(AdminCommand::ChangePeer { change, peer }) => {
                change_peer_error(v.local, entry.epoch, change, peer)
            },
            Command::Admin(AdminCommand::PrepareMerge { target, min_index }) => {
                if prepare_error(v.local, entry.epoch, entry.index, target@, min_index) is Some {
                    prepare_error(v.local, entry.epoch, entry.index, target@, min_index)
                } else if min_index < v.truncated_index {
                    Some(MergeError::LogCompacted)
                } else {
                    None
                }
            },
            Command::Admin(AdminCommand::CommitMerge { source, entries }) => {
                commit_error(v.local, entry.epoch, source@)
            },
            Command::Admin(AdminCommand::RollbackMerge { version }) => {
                rollback_error(v.local, entry.epoch, version)
            },
            Command::Admin(AdminCommand::CompactLog { index }) => {
                admission(v.local, CommandKind::CompactLog, entry.epoch)
            },
        }
    }
}

/// The persisted state after an entry that took effect.
pub open spec fn entry_state(v: ReplicaView, entry: LogEntry) -> LocalStateView {
    match entry.cmd {
        Command::Write { key, value } => v.local,
        Command::Admin(AdminCommand::Split { split_key, new_region_id, new_peer_ids }) => {
            split_left(v.local, split_key@)
        },
        Command::Admin(AdminCommand::ChangePeer { change, peer }) => {
            let changed = after_change_peer(v.local, change, peer);
            if v.removes_self(change, peer) {
                LocalStateView { state: PeerState::Tombstone, ..changed }
            } else {
                changed
            }
        },
        Command::Admin(AdminCommand::PrepareMerge { target, min_index }) => {
            after_prepare(v.local, entry.index, target@, min_index)
        },
        Command::Admin(AdminCommand::CommitMerge { source, entries }) => {
            after_commit(v.local, source@.region)
        },
        Command::Admin(AdminCommand::RollbackMerge { version }) => after_rollback(v.local),
        Command::Admin(AdminCommand::CompactLog { index }) => v.local,
    }
}

/// The replica after it was handed a committed entry. An entry out of order
/// changes nothing. Any other entry is consumed: the applied index moves to
/// it, whether the command took effect or was turned down.
pub open spec fn step(v: ReplicaView, entry: LogEntry) -> ReplicaView {
    if entry.index != v.applied_index + 1 {
        v
    } else if entry_error(v, entry) is Some {
        ReplicaView { applied_index: entry.index, ..v }
    } else {
        ReplicaView {
            local: entry_state(v, entry),
            applied_index: entry.index,
            truncated_index: match entry.cmd {
                Command::Admin(AdminCommand::CompactLog { index }) => {
                    let bound = v.compact_bound(index);
                    if bound > v.truncated_index {
                        bound
                    } else {
                        v.truncated_index
                    }
                },
                _ => v.truncated_index,
            },
            merge_ticks: match entry.cmd {
                Command::Admin(AdminCommand::PrepareMerge { .. }) => 0,
                Command::Admin(AdminCommand::RollbackMerge { .. }) => 0,
                _ => v.merge_ticks,
            },
            ..v
        }
    }
}

/// The replica that a split creates beside `v`.
pub open spec fn split_off(v: ReplicaView, right: LocalStateView) -> ReplicaView {
    ReplicaView {
        store_id: v.store_id,
        local: right,
        applied_index: 0,
        truncated_index: 0,
        merge_ticks: 0,
    }
}

/// Whether `applied` is what the entry, having taken effect, reports.
pub open spec fn reports(applied: Applied, v: ReplicaView, entry: LogEntry) -> bool {
    match entry.cmd {
        Command::Write { key, value } => applied is Write,
        Command::Admin(AdminCommand::Split { split_key, new_region_id, new_peer_ids }) => {
            applied matches Applied::Split { right } && right@ == split_off(
                v,
                split_right(v.local, split_key@, new_region_id, new_peer_ids@),
            )
        },
        Command::Admin(AdminCommand::ChangePeer { change, peer }) => {
            if v.removes_self(change, peer) {
                applied is Removed
            } else {
                applied is PeerChanged
            }
        },
        Command::Admin(AdminCommand::PrepareMerge { target, min_index }) => applied is Prepared,
        Command::Admin(AdminCommand::CommitMerge { source, entries }) => {
            applied matches Applied::Merged { source_id, replayed } && source_id
                == source.region.id && replayed@.len() == 0
        },
        Command::Admin(AdminCommand::RollbackMerge { version }) => applied is RolledBack,
        Command::Admin(AdminCommand::CompactLog { index }) => applied is Compacted,
    }
}

impl Replica {
    /// A fresh replica of a region on `store_id`, with nothing applied.
    pub fn new(store_id: u64, local: RegionLocalState) -> (r: Self)
        ensures
            r@ == (ReplicaView {
                store_id,
                local: local@,
                applied_index: 0,
                truncated_index: 0,
                merge_ticks: 0,
            }),
    {
        Replica { store_id, local, applied_index: 0, truncated_index: 0, merge_ticks: 0 }
    }

    /// Whether the replica is in a state that the protocol can produce.
    pub fn is_well_formed(&self) -> (r: bool)
        ensures
            r == self@.wf(),
    {
        if !self.local.is_well_formed() || self.truncated_index > self.applied_index {
            return false;
        }
        match &self.local.merge_state {
            Some(m) => m.commit <= self.applied_index,
            None => true,
        }
    }

    /// How far the log may be compacted when asked to compact up to `index`.
    pub fn compact_bound(&self, index: u64) -> (r: u64)
        ensures
            r == self@.compact_bound(index),
    {
        let applied = if index <= self.applied_index {
            index
        } else {
            self.applied_index
        };
        match &self.local.merge_state {
            Some(m) => if applied <= m.min_index {
                applied
            } else {
                m.min_index
            },
            None => applied,
        }
    }

    /// Applies one committed entry. The entry after the last applied one is
    /// consumed whether its command takes effect or not; any other entry is
    /// refused as out of order and changes nothing.
    pub fn on_apply(&mut self, entry: &LogEntry) -> (r: Result<Applied, MergeError>)
        ensures
            final(self)@ == step(old(self)@, *entry),
            match entry_error(old(self)@, *entry) {
                Some(e) => r == Err::<Applied, MergeError>(e),
                None => r is Ok && reports(r->Ok_0, old(self)@, *entry),
            },
            old(self)@.wf() ==> final(self)@.wf(),
            old(self)@.wf() ==> (r matches Ok(Applied::Split { right }) ==> right@.wf()),
    {
        if self.applied_index == u64::MAX || entry.index != self.applied_index + 1 {
            return Err(MergeError::OutOfOrder);
        }
        let bound = match &entry.cmd {
            Command::Admin(AdminCommand::CompactLog { index }) => self.compact_bound(*index),
            _ => 0,
        };
        self.applied_index = entry.index;
        match &entry.cmd {
            Command::Write { key, value } => {
                if let Some(e) = self.local.check_admission(CommandKind::Write, &entry.epoch) {
                    return Err(e);
                }
                if !self.local.region.contains_key(key.as_slice()) {
                    return Err(MergeError::KeyNotInRegion);
                }
                Ok(Applied::Write)
            },
            Command::Admin(AdminCommand::Split { split_key, new_region_id, new_peer_ids }) => {
                match self.local.apply_split(
                    &entry.epoch,
                    split_key.as_slice(),
                    *new_region_id,
                    new_peer_ids.as_slice(),
                ) {
                    Ok(right) => Ok(Applied::Split { right: Replica::new(self.store_id, right) }),
                    Err(e) => Err(e),
                }
            },
            Command::Admin(AdminCommand::ChangePeer { change, peer }) => {
                match self.local.apply_change_peer(&entry.epoch, *change, *peer) {
                    Ok(()) => {
                        if *change == ConfChange::RemoveNode && peer.store_id == self.store_id {
                            self.local.state = PeerState::Tombstone;
                            Ok(Applied::Removed)
                        } else {
                            Ok(Applied::PeerChanged)
                        }
                    },
                    Err(e) => Err(e),
                }
            },
            Command::Admin(AdminCommand::PrepareMerge { target, min_index }) => {
                if *min_index < self.truncated_index {
                    match self.local.check_prepare(&entry.epoch, entry.index, target, *min_index) {
                        Some(e) => Err(e),
                        None => Err(MergeError::LogCompacted),
                    }
                } else {
                    match self.local.apply_prepare_merge(
                        &entry.epoch,
                        entry.index,
                        target,
                        *min_index,
                    ) {
                        Ok(()) => {
                            self.merge_ticks = 0;
                            Ok(Applied::Prepared)
                        },
                        Err(e) => Err(e),
                    }
                }
            },
            Command::Admin(AdminCommand::CommitMerge { source, entries }) => {
                match self.local.apply_commit_merge(&entry.epoch, source) {
                    Ok(()) => Ok(
                        Applied::Merged { source_id: source.region.id, replayed: Vec::new() },
                    ),
                    Err(e) => Err(e),
                }
            },
            Command::Admin(AdminCommand::RollbackMerge { version }) => {
                match self.local.apply_rollback_merge(&entry.epoch, *version) {
                    Ok(()) => {
                        self.merge_ticks = 0;
                        Ok(Applied::RolledBack)
                    },
                    Err(e) => Err(e),
                }
            },
            Command::Admin(AdminCommand::CompactLog { index }) => {
                if let Some(e) = self.local.check_admission(CommandKind::CompactLog, &entry.epoch) {
                    return Err(e);
                }
                if bound > self.truncated_index {
                    self.truncated_index = bound;
                }
                Ok(Applied::Compacted)
            },
        }
    }
}

/// Whatever entry a well-formed replica is handed, it stays well formed.
pub proof fn lemma_step_keeps_wf(v: ReplicaView, entry: LogEntry)
    requires
        v.wf(),
    ensures
        step(v, entry).wf(),
{
    if entry.index == v.applied_index + 1 && entry_error(v, entry) is None {
        match entry.cmd {
            Command::Admin(AdminCommand::Split { split_key, new_region_id, new_peer_ids }) => {
                lemma_split_keeps_wf(
                    v.local,
                    entry.epoch,
                    split_key@,
                    new_region_id,
                    new_peer_ids@,
                );
            },
            Command::Admin(AdminCommand::ChangePeer { change, peer }) => {
                lemma_change_peer_keeps_wf(v.local, entry.epoch, change, peer);
            },
            Command::Admin(AdminCommand::CommitMerge { source, entries }) => {
                lemma_absorb_keeps_wf(v.local.region, source@.region);
            },
            _ => {},
        }
    }
}

impl Clone for Replica {
    fn clone(&self) -> (r: Self)
        ensures
            r@ == self@,
    {
        Replica {
            store_id: self.store_id,
            local: self.local.clone(),
            applied_index: self.applied_index,
            truncated_index: self.truncated_index,
            merge_ticks: self.merge_ticks,
        }
    }
}

} // verus!
