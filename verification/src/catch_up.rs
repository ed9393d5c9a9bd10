//! Bringing a lagging replica of a merge source up to the point at which the
//! merge was prepared, and retiring it once the merge is committed.

use crate::apply::retired;
use crate::command::{AdminCommand, Command, LogEntry, MergeError};
use crate::keys::key_eq;
use crate::replica::{entry_error, lemma_step_keeps_wf, step, Replica, ReplicaView};
use crate::state::{LocalStateView, PeerState, RegionLocalState};
use vstd::prelude::*;

verus! {

/// Whether `entry` is the next one for the replica, does not go past
/// `commit`, and is of a kind that may stand between the index every replica
/// holds and the prepare: a write, or the prepare itself.
pub open spec fn replayable(v: ReplicaView, entry: LogEntry, commit: u64) -> bool {
    &&& entry.index == v.applied_index + 1
    &&& entry.index <= commit
    &&& (entry.cmd is Write || entry.cmd matches Command::Admin(
        AdminCommand::PrepareMerge { .. },
    ))
}

/// The replica after it went through `entries` in order, applying each one
/// that is replayable when its turn comes and passing over the others.
pub open spec fn replay(v: ReplicaView, entries: Seq<LogEntry>, commit: u64) -> ReplicaView
    decreases entries.len(),
{
    if entries.len() == 0 {
        v
    } else {
        let before = replay(v, entries.drop_last(), commit);
        if replayable(before, entries.last(), commit) {
            step(before, entries.last())
        } else {
            before
        }
    }
}

/// The positions in `entries` of the writes that took effect during
/// `replay`: what storage still has to be told.
pub open spec fn replayed_writes(v: ReplicaView, entries: Seq<LogEntry>, commit: u64) -> Seq<
    usize,
>
    decreases entries.len(),
{
    if entries.len() == 0 {
        Seq::empty()
    } else {
        let before = replay(v, entries.drop_last(), commit);
        let writes = replayed_writes(v, entries.drop_last(), commit);
        if replayable(before, entries.last(), commit) && entries.last().cmd is Write
            && entry_error(before, entries.last()) is None {
            writes.push((entries.len() - 1) as usize)
        } else {
            writes
        }
    }
}

/// Whether the replica is where the frozen source state `frozen` says a
/// replica of the source is when its merge is committed: it has applied its
/// log up to the prepare and is merging, at the same epoch and over the same
/// range, with the merge prepared at the same index.
pub open spec fn at_merge_point(v: ReplicaView, frozen: LocalStateView) -> bool {
    &&& v.applied_index >= frozen_commit(frozen)
    &&& v.local.state == PeerState::Merging
    &&& frozen.merge_state is Some
    &&& v.local.merge_state is Some
    &&& v.local.region.id == frozen.region.id
    &&& v.local.region.epoch == frozen.region.epoch
    &&& v.local.region.start_key == frozen.region.start_key
    &&& v.local.region.end_key == frozen.region.end_key
    &&& v.local.merge_state->Some_0.commit == frozen.merge_state->Some_0.commit
    &&& v.local.merge_state->Some_0.target.id == frozen.merge_state->Some_0.target.id
}

/// The prepare index that a frozen source state carries; zero if it
/// carries none.
pub open spec fn frozen_commit(frozen: LocalStateView) -> u64 {
    match frozen.merge_state {
        Some(m) => m.commit,
        None => 0,
    }
}

/// What becomes of a source replica when the merge is committed: why it
/// cannot be retired yet, if it cannot.
pub open spec fn retire_error(v: ReplicaView, frozen: LocalStateView, entries: Seq<LogEntry>) -> Option<
    MergeError,
> {
    if v.local.state == PeerState::Tombstone {
        None
    } else if frozen.merge_state is None {
        Some(MergeError::InvalidMerge)
    } else {
        let caught_up = replay(v, entries, frozen_commit(frozen));
        if at_merge_point(caught_up, frozen) {
            None
        } else if caught_up.applied_index < frozen_commit(frozen) {
            Some(MergeError::SourceNotReady)
        } else {
            Some(MergeError::EpochMismatch)
        }
    }
}

/// The source replica after the merge is committed: retired when it is at
/// the merge point after replaying what it lacked, else as far as the
/// replay brought it.
pub open spec fn after_source_commit(
    v: ReplicaView,
    frozen: LocalStateView,
    entries: Seq<LogEntry>,
) -> ReplicaView {
    if v.local.state == PeerState::Tombstone || frozen.merge_state is None {
        v
    } else {
        let caught_up = replay(v, entries, frozen_commit(frozen));
        if at_merge_point(caught_up, frozen) {
            ReplicaView { local: retired(caught_up.local), ..caught_up }
        } else {
            caught_up
        }
    }
}

impl Replica {
    /// Goes through `entries` in order and applies each one that is the next
    /// for this replica, does not go past `commit` and is a write or the
    /// prepare of a merge. Returns the positions of the writes that took
    /// effect.
    pub fn catch_up(&mut self, commit: u64, entries: &Vec<LogEntry>) -> (writes: Vec<usize>)
        ensures
            final(self)@ == replay(old(self)@, entries@, commit),
            writes@ == replayed_writes(old(self)@, entries@, commit),
            old(self)@.wf() ==> final(self)@.wf(),
    {
        let ghost start = self@;
        let mut writes: Vec<usize> = Vec::new();
        let mut i: usize = 0;
        assert(entries@.take(0) =~= Seq::<LogEntry>::empty());
        while i < entries.len()
            invariant
                0 <= i <= entries@.len(),
                start == old(self)@,
                self@ == replay(start, entries@.take(i as int), commit),
                writes@ == replayed_writes(start, entries@.take(i as int), commit),
                start.wf() ==> self@.wf(),
            decreases entries@.len() - i,
        {
            let entry = &entries[i];
            let ghost before = self@;
            proof {
                assert(entries@.take(i + 1).drop_last() =~= entries@.take(i as int));
                assert(entries@.take(i + 1).last() == entries@[i as int]);
            }
            let next = self.applied_index < u64::MAX && entry.index == self.applied_index + 1;
            let kind_ok = match &entry.cmd {
                Command::Write { .. } => true,
                Command::Admin(AdminCommand::PrepareMerge { .. }) => true,
                _ => false,
            };
            if next && entry.index <= commit && kind_ok {
                let is_write = match &entry.cmd {
                    Command::Write { .. } => true,
                    _ => false,
                };
                match self.on_apply(entry) {
                    Ok(_) => {
                        if is_write {
                            writes.push(i);
                        }
                    },
                    Err(_) => {},
                }
            }
            i += 1;
        }
        assert(entries@.take(entries@.len() as int) =~= entries@);
        writes
    }

    /// On a replica of the source, when the merge is committed: replays from
    /// `entries` what the replica lacks, and retires it if that brings it to
    /// where `frozen`, the source state that the commit carries, says the
    /// merge was prepared. A replica that is retired already stays so.
    /// Returns the positions of the replayed writes that took effect.
    pub fn on_commit_merge(&mut self, frozen: &RegionLocalState, entries: &Vec<LogEntry>) -> (r:
        Result<Vec<usize>, MergeError>)
        ensures
            final(self)@ == after_source_commit(old(self)@, frozen@, entries@),
            match retire_error(old(self)@, frozen@, entries@) {
                Some(e) => r == Err::<Vec<usize>, MergeError>(e),
                None => r is Ok && r->Ok_0@ == (if old(self)@.local.state == PeerState::Tombstone {
                    Seq::<usize>::empty()
                } else {
                    replayed_writes(old(self)@, entries@, frozen_commit(frozen@))
                }) && final(self)@.local.state == PeerState::Tombstone,
            },
            old(self)@.wf() ==> final(self)@.wf(),
    {
        if self.local.state == PeerState::Tombstone {
            return Ok(Vec::new());
        }
        let (commit, target_id) = match &frozen.merge_state {
            Some(m) => (m.commit, m.target.id),
            None => {
                return Err(MergeError::InvalidMerge);
            },
        };
        let writes = self.catch_up(commit, entries);
        let at_point = match &self.local.merge_state {
            Some(m) => self.applied_index >= commit && self.local.state == PeerState::Merging
                && self.local.region.id
                == frozen.region.id && self.local.region.epoch == frozen.region.epoch && key_eq(
                self.local.region.start_key.as_slice(),
                frozen.region.start_key.as_slice(),
            ) && key_eq(self.local.region.end_key.as_slice(), frozen.region.end_key.as_slice())
                && m.commit == commit && m.target.id == target_id,
            None => false,
        };
        if at_point {
            self.local.retire();
            Ok(writes)
        } else if self.applied_index < commit {
            Err(MergeError::SourceNotReady)
        } else {
            Err(MergeError::EpochMismatch)
        }
    }
}

/// Replaying moves neither the replica nor its range: the store, the
/// region's id and its boundaries stay, and a retired replica stays retired.
pub proof fn lemma_replay_frame(v: ReplicaView, entries: Seq<LogEntry>, commit: u64)
    ensures
        replay(v, entries, commit).store_id == v.store_id,
        replay(v, entries, commit).local.region.id == v.local.region.id,
        replay(v, entries, commit).local.region.start_key == v.local.region.start_key,
        replay(v, entries, commit).local.region.end_key == v.local.region.end_key,
        replay(v, entries, commit).local.live() == v.local.live(),
        replay(v, entries, commit).applied_index >= v.applied_index,
    decreases entries.len(),
{
    if entries.len() > 0 {
        lemma_replay_frame(v, entries.drop_last(), commit);
    }
}

/// Replaying keeps a well-formed replica well formed.
pub proof fn lemma_replay_keeps_wf(v: ReplicaView, entries: Seq<LogEntry>, commit: u64)
    requires
        v.wf(),
    ensures
        replay(v, entries, commit).wf(),
    decreases entries.len(),
{
    if entries.len() > 0 {
        lemma_replay_keeps_wf(v, entries.drop_last(), commit);
        lemma_step_keeps_wf(replay(v, entries.drop_last(), commit), entries.last());
    }
}

/// The commit of a merge keeps a well-formed replica of the source well
/// formed.
pub proof fn lemma_source_commit_keeps_wf(
    v: ReplicaView,
    frozen: LocalStateView,
    entries: Seq<LogEntry>,
)
    requires
        v.wf(),
    ensures
        after_source_commit(v, frozen, entries).wf(),
{
    lemma_replay_keeps_wf(v, entries, frozen_commit(frozen));
}

} // verus!
