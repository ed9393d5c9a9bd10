//! What holds of the merge protocol as a whole, proved from the definitions
//! of its steps.

use crate::apply::{
    absorb, admission, lemma_absorb_unites, rolled_back, split_error, split_left, split_right,
};
use crate::catch_up::{
    after_source_commit, at_merge_point, frozen_commit, lemma_replay_frame,
    lemma_source_commit_keeps_wf, replay, replayable, retire_error,
};
use crate::collector::{authoritative_at, deduplicated};
use crate::command::{AdminCommand, Command, CommandKind, LogEntry, MergeError};
use crate::proposal::contiguous_from;
use crate::region::RegionEpoch;
use crate::replica::{entry_error, lemma_step_keeps_wf, step, ReplicaView};
use crate::snapshot::{snapshot_replicas, store_snapshot_error, SnapshotView};
use crate::state::{LocalStateView, PeerState};
use crate::state_key::{lemma_bytes_of_id, state_key_of};
use crate::store::{
    consumed, keeps_owners, lemma_cover_kept, lemma_keeps_owners_transitive, lemma_merge_store,
    lemma_position, lemma_put_keeps_owners, lemma_put_keeps_wf, lemma_split_store, lemma_step_frame,
    route_error, route_next, StoreView,
};
use vstd::prelude::*;

verus! {

/// The version of a region's epoch never goes down, nor does its replica-set
/// version, whatever entry a replica is handed.
pub proof fn law_epoch_never_decreases(v: ReplicaView, entry: LogEntry)
    ensures
        step(v, entry).local.region.epoch.not_before(v.local.region.epoch),
{
}

/// A split, the preparing, the committing and the rolling back of a merge
/// each raise the version of the region they take effect on.
pub proof fn law_boundary_steps_raise_version(v: ReplicaView, entry: LogEntry)
    requires
        entry_error(v, entry) is None,
        entry.cmd.spec_kind() == CommandKind::Split || entry.cmd.spec_kind()
            == CommandKind::PrepareMerge || entry.cmd.spec_kind() == CommandKind::CommitMerge
            || entry.cmd.spec_kind() == CommandKind::RollbackMerge,
    ensures
        step(v, entry).local.region.epoch.version > v.local.region.epoch.version,
{
}

/// A command made for another epoch of the region is never applied,
/// whatever its kind: a serving replica refuses it with an epoch mismatch.
pub proof fn law_stale_epoch_is_refused(s: LocalStateView, kind: CommandKind, epoch: RegionEpoch)
    requires
        s.serving(),
        epoch != s.region.epoch,
    ensures
        admission(s, kind, epoch) == Some(MergeError::EpochMismatch),
{
}

/// An entry made for another epoch of the region leaves what the replica
/// persists about its region as it was, and its log uncompacted: the entry
/// is consumed and nothing else happens.
pub proof fn law_stale_entry_changes_nothing(v: ReplicaView, entry: LogEntry)
    requires
        entry.epoch != v.local.region.epoch,
    ensures
        step(v, entry).local == v.local,
        step(v, entry).truncated_index == v.truncated_index,
        v.local.serving() && entry.index == v.applied_index + 1 ==> entry_error(v, entry) == Some(
            MergeError::EpochMismatch,
        ),
{
}

/// The replica after it applied `entries` one after another.
pub open spec fn run(v: ReplicaView, entries: Seq<LogEntry>) -> ReplicaView
    decreases entries.len(),
{
    if entries.len() == 0 {
        v
    } else {
        step(run(v, entries.drop_last()), entries.last())
    }
}

/// Along any sequence of entries that a replica applies, neither counter of
/// its region's epoch ever goes down.
pub proof fn law_epochs_never_decrease_along_a_log(v: ReplicaView, entries: Seq<LogEntry>)
    ensures
        run(v, entries).local.region.epoch.not_before(v.local.region.epoch),
    decreases entries.len(),
{
    if entries.len() > 0 {
        law_epochs_never_decrease_along_a_log(v, entries.drop_last());
        law_epoch_never_decreases(run(v, entries.drop_last()), entries.last());
    }
}

/// Both halves of a split are at the old version plus one and at the old
/// replica-set version.
pub proof fn law_split_raises_the_version_of_both_halves(
    s: LocalStateView,
    epoch: RegionEpoch,
    key: Seq<u8>,
    new_region_id: u64,
    new_peer_ids: Seq<u64>,
)
    requires
        split_error(s, epoch, key, new_region_id, new_peer_ids) is None,
    ensures
        split_left(s, key).region.epoch.version == s.region.epoch.version + 1,
        split_left(s, key).region.epoch.conf_ver == s.region.epoch.conf_ver,
        split_right(s, key, new_region_id, new_peer_ids).region.epoch == split_left(
            s,
            key,
        ).region.epoch,
{
}

/// A replica that replays entries to catch up sees its epoch go up only.
pub proof fn law_replay_epoch_never_decreases(v: ReplicaView, entries: Seq<LogEntry>, commit: u64)
    ensures
        replay(v, entries, commit).local.region.epoch.not_before(v.local.region.epoch),
    decreases entries.len(),
{
    if entries.len() > 0 {
        law_replay_epoch_never_decreases(v, entries.drop_last(), commit);
        law_epoch_never_decreases(replay(v, entries.drop_last(), commit), entries.last());
    }
}

/// Whatever entry a store is handed for whatever region, no replica that it
/// held sees its epoch go down.
pub proof fn law_store_epochs_never_decrease(v: StoreView, region_id: u64, entry: LogEntry, k: int)
    requires
        0 <= k < v.replicas.len(),
    ensures
        k < route_next(v, region_id, entry).replicas.len(),
        route_next(v, region_id, entry).replicas[k].local.region.epoch.not_before(
            v.replicas[k].local.region.epoch,
        ),
{
    if v.has_region(region_id) {
        let i = v.position(region_id);
        law_epoch_never_decreases(v.replicas[i], entry);
        match entry.cmd {
            Command::Admin(AdminCommand::CommitMerge { source, entries }) => {
                if v.has_region(source.region.id) {
                    let j = v.position(source.region.id);
                    law_replay_epoch_never_decreases(
                        v.replicas[j],
                        entries@,
                        frozen_commit(source@),
                    );
                }
            },
            _ => {},
        }
    }
}

/// A snapshot that a store takes in lowers the epoch of no replica that it
/// held.
pub proof fn law_snapshot_epochs_never_decrease(v: StoreView, snap: SnapshotView, k: int)
    requires
        v.wf(),
        store_snapshot_error(v, snap) is None,
        0 <= k < v.replicas.len(),
    ensures
        snapshot_replicas(v, snap)[k].local.region.epoch.not_before(
            v.replicas[k].local.region.epoch,
        ),
{
}

/// Whether the entry takes this store's own replica out of the region it
/// is handed to: the one step after which a store rightly holds fewer keys.
pub open spec fn removes_own_replica(v: StoreView, region_id: u64, entry: LogEntry) -> bool {
    &&& v.has_region(region_id)
    &&& route_error(v, region_id, entry) is None
    &&& entry.cmd matches Command::Admin(AdminCommand::ChangePeer { change, peer })
        && v.replicas[v.position(region_id)].removes_self(change, peer)
}

/// The live replicas of a store never share a key: whatever entry a
/// well-formed store is handed for whatever region, it stays well formed.
/// And every key that a live replica held is held by a live replica
/// afterwards, unless the entry takes the store's own replica out of its
/// region. So the ranges of the live regions of a store that holds a replica
/// of every region stay a cover of the key space without overlap, through
/// every split and every merge.
pub proof fn law_store_stays_partitioned(v: StoreView, region_id: u64, entry: LogEntry)
    requires
        v.wf(),
    ensures
        route_next(v, region_id, entry).wf(),
        !removes_own_replica(v, region_id, entry) ==> keeps_owners(
            v,
            route_next(v, region_id, entry),
        ),
        v.covers() && !removes_own_replica(v, region_id, entry) ==> route_next(
            v,
            region_id,
            entry,
        ).covers(),
{
    let after = route_next(v, region_id, entry);
    if v.has_region(region_id) {
        let i = v.position(region_id);
        let t = v.replicas[i];
        lemma_position(v, region_id, i);
        lemma_step_keeps_wf(t, entry);
        match entry.cmd {
            Command::Admin(AdminCommand::Split { split_key, new_region_id, new_peer_ids }) => {
                if !v.has_region(new_region_id) {
                    if entry_error(t, entry) is Some {
                        lemma_put_keeps_wf(v, i, step(t, entry));
                        lemma_put_keeps_owners(v, i, step(t, entry));
                    } else {
                        crate::apply::lemma_split_keeps_wf(
                            t.local,
                            entry.epoch,
                            split_key@,
                            new_region_id,
                            new_peer_ids@,
                        );
                        lemma_split_store(v, i, entry);
                    }
                }
            },
            Command::Admin(AdminCommand::CommitMerge { source, entries }) => {
                if entry_error(t, entry) is Some {
                    lemma_put_keeps_wf(v, i, step(t, entry));
                    lemma_put_keeps_owners(v, i, step(t, entry));
                } else if v.has_region(source.region.id) {
                    let j = v.position(source.region.id);
                    lemma_position(v, source.region.id, j);
                    let s = v.replicas[j];
                    let s2 = after_source_commit(s, source@, entries@);
                    if !v.blocked(absorb(t.local.region, source@.region), set![i, j]) {
                        lemma_source_commit_keeps_wf(s, source@, entries@);
                        lemma_replay_frame(s, entries@, frozen_commit(source@));
                        match retire_error(s, source@, entries@) {
                            None => {
                                lemma_merge_store(v, i, j, entry);
                            },
                            Some(MergeError::SourceNotReady) => {
                                lemma_put_keeps_wf(v, j, s2);
                                lemma_put_keeps_owners(v, j, s2);
                            },
                            Some(_) => {
                                let caught_up = v.put(j, s2);
                                lemma_put_keeps_wf(v, j, s2);
                                lemma_put_keeps_owners(v, j, s2);
                                lemma_put_keeps_wf(caught_up, i, consumed(t, entry));
                                lemma_put_keeps_owners(caught_up, i, consumed(t, entry));
                                lemma_keeps_owners_transitive(v, caught_up, after);
                            },
                        }
                    }
                }
            },
            _ => {
                lemma_step_frame(t, entry);
                lemma_put_keeps_wf(v, i, step(t, entry));
                if !removes_own_replica(v, region_id, entry) {
                    lemma_put_keeps_owners(v, i, step(t, entry));
                }
            },
        }
    }
    if v.covers() && !removes_own_replica(v, region_id, entry) {
        lemma_cover_kept(v, after);
    }
}

/// Rolling back twice is rolling back once: the second rollback changes
/// nothing, and in particular raises no version. On a region that is not
/// merging a rollback changes nothing at all.
pub proof fn law_rollback_idempotent(s: LocalStateView, epoch: RegionEpoch, version: u64)
    ensures
        rolled_back(rolled_back(s, epoch, version), epoch, version) == rolled_back(
            s,
            epoch,
            version,
        ),
        s.state != PeerState::Merging ==> rolled_back(s, epoch, version) == s,
{
}

/// An entry handed to a replica twice has the effect of the entry handed to
/// it once.
pub proof fn law_entry_applies_once(v: ReplicaView, entry: LogEntry)
    ensures
        step(step(v, entry), entry) == step(v, entry),
{
}

/// What a read of `key` through the store returns, given what storage
/// holds: the value stored, if a live replica holds the key and storage has
/// a value for it.
pub open spec fn visible(v: StoreView, data: Map<Seq<u8>, Seq<u8>>, key: Seq<u8>) -> Option<
    Seq<u8>,
> {
    if v.has_owner(key) && data.contains_key(key) {
        Some(data[key])
    } else {
        None
    }
}

/// Where the commit of a merge takes effect, every key that the source or
/// the target held is held by the target afterwards, and every other key
/// stays with the region that held it.
pub proof fn law_merge_moves_keys_to_target(
    v: StoreView,
    region_id: u64,
    entry: LogEntry,
    id: u64,
    key: Seq<u8>,
)
    requires
        v.wf(),
        entry.cmd matches Command::Admin(AdminCommand::CommitMerge { .. }),
        route_error(v, region_id, entry) is None,
        v.owns(id, key),
    ensures
        route_next(v, region_id, entry).owns(
            if id == entry.cmd->Admin_0->source.region.id {
                region_id
            } else {
                id
            },
            key,
        ),
{
    let source = entry.cmd->Admin_0->source@;
    let entries = entry.cmd->Admin_0->entries@;
    let i = v.position(region_id);
    let j = v.position(source.region.id);
    let t = v.replicas[i];
    let s = v.replicas[j];
    let after = route_next(v, region_id, entry);
    let k = choose|k: int| #[trigger] v.holds(k, key) && v.replicas[k].local.region.id == id;
    lemma_position(v, id, k);
    lemma_replay_frame(s, entries, frozen_commit(source));
    lemma_absorb_unites(t.local.region, source.region, key);
    assert(after.replicas =~= v.replicas.update(
        j,
        after_source_commit(s, source, entries),
    ).update(i, step(t, entry)));
    if k == j {
        assert(at_merge_point(replay(s, entries, frozen_commit(source)), source));
        assert(after.holds(i, key));
    } else if k == i {
        assert(after.holds(i, key));
    } else {
        assert(after.holds(k, key));
    }
}

/// No write is lost across a merge: a key that could be read before the
/// commit of a merge took effect reads the same afterwards, storage being
/// what it was, since a merge asks for no data to be removed.
pub proof fn law_merge_keeps_reads(
    v: StoreView,
    region_id: u64,
    entry: LogEntry,
    data: Map<Seq<u8>, Seq<u8>>,
    key: Seq<u8>,
)
    requires
        v.wf(),
        entry.cmd matches Command::Admin(AdminCommand::CommitMerge { .. }),
        route_error(v, region_id, entry) is None,
        visible(v, data, key) is Some,
    ensures
        visible(route_next(v, region_id, entry), data, key) == visible(v, data, key),
{
    let k = choose|k: int| v.holds(k, key);
    let id = v.replicas[k].local.region.id;
    assert(v.holds(k, key) && v.replicas[k].local.region.id == id);
    law_merge_moves_keys_to_target(v, region_id, entry, id, key);
}

/// Where the commit of a merge takes effect, the source's replica on the
/// store is retired and holds no key any more.
pub proof fn law_committed_source_is_retired(v: StoreView, region_id: u64, entry: LogEntry)
    requires
        v.wf(),
        entry.cmd matches Command::Admin(AdminCommand::CommitMerge { .. }),
        route_error(v, region_id, entry) is None,
    ensures
        forall|key: Seq<u8>|
            !route_next(v, region_id, entry).owns(entry.cmd->Admin_0->source.region.id, key),
        route_next(v, region_id, entry).replicas[v.position(
            entry.cmd->Admin_0->source.region.id,
        )].local.state == PeerState::Tombstone,
{
    let source = entry.cmd->Admin_0->source@;
    let entries = entry.cmd->Admin_0->entries@;
    let i = v.position(region_id);
    let j = v.position(source.region.id);
    let t = v.replicas[i];
    let s = v.replicas[j];
    let after = route_next(v, region_id, entry);
    lemma_position(v, region_id, i);
    lemma_position(v, source.region.id, j);
    lemma_replay_frame(s, entries, frozen_commit(source));
    assert(after.replicas =~= v.replicas.update(
        j,
        after_source_commit(s, source, entries),
    ).update(i, step(t, entry)));
    assert(i != j);
    assert forall|key: Seq<u8>| !after.owns(source.region.id, key) by {
        if after.owns(source.region.id, key) {
            let k = choose|k: int| #[trigger]
                after.holds(k, key) && after.replicas[k].local.region.id == source.region.id;
            if k != j {
                if k == i {
                    assert(after.replicas[i].local.region.id == region_id);
                } else {
                    lemma_position(v, source.region.id, k);
                }
            }
        }
    }
}

/// A replica that lags behind the prepare of a merge and is handed the
/// entries it lacks, one after another and each a write or the prepare,
/// gets to the prepare: it is not left waiting for a snapshot.
pub proof fn law_replay_reaches_prepare(v: ReplicaView, entries: Seq<LogEntry>, commit: u64)
    requires
        v.applied_index + entries.len() == commit,
        contiguous_from(entries, v.applied_index + 1),
        forall|k: int|
            0 <= k < entries.len() ==> ((#[trigger] entries[k]).cmd is Write
                || entries[k].cmd matches Command::Admin(AdminCommand::PrepareMerge { .. })),
    ensures
        replay(v, entries, commit).applied_index == commit,
    decreases entries.len(),
{
    if entries.len() > 0 {
        let shorter = entries.drop_last();
        assert forall|k: int| 0 <= k < shorter.len() implies (#[trigger] shorter[k]).index
            == v.applied_index + 1 + k by {
            assert(shorter[k] == entries[k]);
        }
        assert forall|k: int| 0 <= k < shorter.len() implies ((#[trigger] shorter[k]).cmd is Write
            || shorter[k].cmd matches Command::Admin(AdminCommand::PrepareMerge { .. })) by {
            assert(shorter[k] == entries[k]);
        }
        law_replay_reaches_prepare(v, shorter, (commit - 1) as u64);
        lemma_replay_bound(v, shorter, (commit - 1) as u64, commit);
        let before = replay(v, shorter, commit);
        assert(entries.last() == entries[entries.len() - 1]);
        assert(replayable(before, entries.last(), commit));
    }
}

/// Entries that stay below a bound replay the same under any larger bound.
pub proof fn lemma_replay_bound(v: ReplicaView, entries: Seq<LogEntry>, low: u64, high: u64)
    requires
        low <= high,
        v.applied_index + entries.len() <= low,
        contiguous_from(entries, v.applied_index + 1),
    ensures
        replay(v, entries, low) == replay(v, entries, high),
    decreases entries.len(),
{
    if entries.len() > 0 {
        let shorter = entries.drop_last();
        assert forall|k: int| 0 <= k < shorter.len() implies (#[trigger] shorter[k]).index
            == v.applied_index + 1 + k by {
            assert(shorter[k] == entries[k]);
        }
        lemma_replay_bound(v, shorter, low, high);
        assert(entries.last() == entries[entries.len() - 1]);
    }
}

/// Entries that follow one another from where the replica stands, each a
/// write or the prepare of a merge, and none past the prepare, are replayed
/// each in its turn: replaying them is applying them.
pub proof fn law_replay_follows_the_log(v: ReplicaView, entries: Seq<LogEntry>, commit: u64)
    requires
        v.applied_index + entries.len() <= commit,
        contiguous_from(entries, v.applied_index + 1),
        forall|k: int|
            0 <= k < entries.len() ==> ((#[trigger] entries[k]).cmd is Write
                || entries[k].cmd matches Command::Admin(AdminCommand::PrepareMerge { .. })),
    ensures
        replay(v, entries, commit) == run(v, entries),
        run(v, entries).applied_index == v.applied_index + entries.len(),
    decreases entries.len(),
{
    if entries.len() > 0 {
        let shorter = entries.drop_last();
        assert forall|k: int| 0 <= k < shorter.len() implies (#[trigger] shorter[k]).index
            == v.applied_index + 1 + k by {
            assert(shorter[k] == entries[k]);
        }
        assert forall|k: int| 0 <= k < shorter.len() implies ((#[trigger] shorter[k]).cmd is Write
            || shorter[k].cmd matches Command::Admin(AdminCommand::PrepareMerge { .. })) by {
            assert(shorter[k] == entries[k]);
        }
        law_replay_follows_the_log(v, shorter, commit);
        assert(entries.last() == entries[entries.len() - 1]);
        assert(replayable(run(v, shorter), entries.last(), commit));
    }
}

/// A replica of the source that was cut off during the merge converges.
/// Handed the entries that the other replicas applied from where it stands
/// up to the prepare, it ends where they ended, in the state that the
/// commit carries, and the commit retires it: it holds no merge record and
/// stands for no key any more.
pub proof fn law_lagging_source_converges(
    v: ReplicaView,
    frozen: LocalStateView,
    entries: Seq<LogEntry>,
)
    requires
        v.local.state != PeerState::Tombstone,
        contiguous_from(entries, v.applied_index + 1),
        forall|k: int|
            0 <= k < entries.len() ==> ((#[trigger] entries[k]).cmd is Write
                || entries[k].cmd matches Command::Admin(AdminCommand::PrepareMerge { .. })),
        frozen.state == PeerState::Merging,
        frozen.merge_state is Some,
        frozen.merge_state->Some_0.commit == v.applied_index + entries.len(),
        run(v, entries).local == frozen,
    ensures
        retire_error(v, frozen, entries) is None,
        after_source_commit(v, frozen, entries).local.state == PeerState::Tombstone,
        after_source_commit(v, frozen, entries).local.merge_state is None,
        !after_source_commit(v, frozen, entries).local.live(),
{
    law_replay_follows_the_log(v, entries, frozen_commit(frozen));
}

/// A replica that got to the prepare by replay, and is where the frozen
/// source state says the merge was prepared, is retired by the commit.
pub proof fn law_caught_up_replica_retires(
    v: ReplicaView,
    frozen: LocalStateView,
    entries: Seq<LogEntry>,
)
    requires
        v.local.state != PeerState::Tombstone,
        frozen.merge_state is Some,
        at_merge_point(replay(v, entries, frozen_commit(frozen)), frozen),
    ensures
        retire_error(v, frozen, entries) is None,
        after_source_commit(v, frozen, entries).local.state == PeerState::Tombstone,
        after_source_commit(v, frozen, entries).local.merge_state is None,
{
}

/// Which snapshot of a region is authoritative does not depend on the order
/// in which the snapshots came: two collections that hold the same
/// snapshots agree on the epoch of the authoritative one.
pub proof fn law_authoritative_epoch_ignores_order(
    a: Seq<SnapshotView>,
    b: Seq<SnapshotView>,
    region_id: u64,
    i: int,
    j: int,
)
    requires
        forall|x: SnapshotView| a.contains(x) <==> b.contains(x),
        authoritative_at(a, region_id, i),
        authoritative_at(b, region_id, j),
    ensures
        a[i].local.region.epoch == b[j].local.region.epoch,
{
    assert(a.contains(a[i]));
    assert(b.contains(a[i]));
    let k = choose|k: int| 0 <= k < b.len() && b[k] == a[i];
    assert(!b[k].local.region.epoch.newer_than(b[j].local.region.epoch));
    assert(b.contains(b[j]));
    assert(a.contains(b[j]));
    let m = choose|m: int| 0 <= m < a.len() && a[m] == b[j];
    assert(!a[m].local.region.epoch.newer_than(a[i].local.region.epoch));
}

/// Among snapshots of which no two are of the same region at the same
/// epoch, exactly one of a region can be authoritative.
pub proof fn law_one_snapshot_is_authoritative(
    held: Seq<SnapshotView>,
    region_id: u64,
    i: int,
    j: int,
)
    requires
        deduplicated(held),
        authoritative_at(held, region_id, i),
        authoritative_at(held, region_id, j),
    ensures
        i == j,
{
    if i != j {
        let a = held[i].local.region.epoch;
        let b = held[j].local.region.epoch;
        assert(!a.newer_than(b) && !b.newer_than(a));
        assert(a == b);
        if i < j {
            assert(held[i].local.region.epoch != held[j].local.region.epoch);
        } else {
            assert(held[j].local.region.epoch != held[i].local.region.epoch);
        }
    }
}

/// The states of two regions are never persisted under the same key.
pub proof fn law_state_keys_differ(a: u64, b: u64)
    requires
        a != b,
    ensures
        state_key_of(a) != state_key_of(b),
{
    lemma_bytes_of_id(a);
    lemma_bytes_of_id(b);
}

/// While a merge is pending, compacting the log never moves past the
/// smallest index that every replica of the source holds: the entries that a
/// lagging replica may still need stay.
pub proof fn law_compaction_spares_what_a_merge_needs(v: ReplicaView, entry: LogEntry)
    requires
        v.local.merge_state is Some,
        entry.cmd matches Command::Admin(AdminCommand::CompactLog { .. }),
    ensures
        step(v, entry).truncated_index == v.truncated_index || step(v, entry).truncated_index
            <= v.local.merge_state->Some_0.min_index,
        step(v, entry).truncated_index >= v.truncated_index,
        step(v, entry).local == v.local,
{
}

/// Of a rollback and a commit of the same merge, the one that is applied
/// first wins. Once a source replica has rolled its merge back, a commit
/// that carries the state the source had while merging finds the replica at
/// another epoch, whatever entries it brings along: it is stale.
pub proof fn law_rollback_defeats_late_commit(
    v: ReplicaView,
    rollback: LogEntry,
    entries: Seq<LogEntry>,
)
    requires
        v.wf(),
        v.local.state == PeerState::Merging,
        rollback.cmd matches Command::Admin(AdminCommand::RollbackMerge { .. }),
        entry_error(v, rollback) is None,
    ensures
        step(v, rollback).local.state == PeerState::Normal,
        retire_error(step(v, rollback), v.local, entries) == Some(MergeError::EpochMismatch),
{
    let rolled = step(v, rollback);
    let commit = frozen_commit(v.local);
    law_replay_epoch_never_decreases(rolled, entries, commit);
    lemma_replay_frame(rolled, entries, commit);
}

/// And once the commit is applied, the source's replica is retired: a
/// rollback that comes later finds no region and changes nothing.
pub proof fn law_commit_defeats_late_rollback(
    v: ReplicaView,
    frozen: LocalStateView,
    entries: Seq<LogEntry>,
    rollback: LogEntry,
)
    requires
        retire_error(v, frozen, entries) is None,
        rollback.cmd matches Command::Admin(AdminCommand::RollbackMerge { .. }),
    ensures
        step(after_source_commit(v, frozen, entries), rollback).local == after_source_commit(
            v,
            frozen,
            entries,
        ).local,
        rollback.index == after_source_commit(v, frozen, entries).applied_index + 1 ==> entry_error(
            after_source_commit(v, frozen, entries),
            rollback,
        ) == Some(MergeError::RegionNotFound),
{
}

} // verus!
