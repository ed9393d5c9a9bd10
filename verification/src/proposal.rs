//! What a replica decides before anything reaches the log: whether a
//! proposal is admitted, how a merge is prepared and committed, and when
//! waiting for a merge ends in a rollback.

use crate::apply::{admission, prepare_error};
use crate::command::{AdminCommand, Command, CommandKind, LogEntry, MergeError};
use crate::region::{Region, RegionEpoch, RegionView};
use crate::replica::{Replica, ReplicaView};
use crate::state::{LocalStateView, PeerState, RegionLocalState};
use vstd::prelude::*;

verus! {

/// The smallest of the indices; `u64::MAX` where there is none.
pub open spec fn min_index_of(matched: Seq<u64>) -> u64
    decreases matched.len(),
{
    if matched.len() == 0 {
        u64::MAX
    } else {
        let rest = min_index_of(matched.drop_last());
        if matched.last() < rest {
            matched.last()
        } else {
            rest
        }
    }
}

/// Every entry is a plain write.
pub open spec fn all_writes(entries: Seq<LogEntry>) -> bool {
    forall|k: int| 0 <= k < entries.len() ==> (#[trigger] entries[k]).cmd is Write
}

/// The entries are those with the indices `first`, `first + 1`, and so on.
pub open spec fn contiguous_from(entries: Seq<LogEntry>, first: int) -> bool {
    forall|k: int| 0 <= k < entries.len() ==> (#[trigger] entries[k]).index == first + k
}

/// Why a merge into `target` cannot be proposed, if it cannot. `matched`
/// holds, for each replica of the source, the last log index known to be on
/// it; `last_index` is the last index of the leader's log; `gap` holds the
/// entries after the smallest matched index.
pub open spec fn prepare_proposal_error(
    v: ReplicaView,
    epoch: RegionEpoch,
    target: RegionView,
    matched: Seq<u64>,
    last_index: u64,
    max_gap: u64,
    gap: Seq<LogEntry>,
) -> Option<MergeError> {
    let min_index = min_index_of(matched);
    if prepare_error(v.local, epoch, last_index, target, min_index) is Some {
        prepare_error(v.local, epoch, last_index, target, min_index)
    } else if matched.len() != v.local.region.peers.len() {
        Some(MergeError::ReplicaSetMismatch)
    } else if last_index - min_index > max_gap {
        Some(MergeError::LogGapTooLarge)
    } else if min_index < v.truncated_index {
        Some(MergeError::LogCompacted)
    } else if gap.len() != last_index - min_index || !contiguous_from(gap, min_index + 1) {
        Some(MergeError::InvalidMerge)
    } else if !all_writes(gap) {
        Some(MergeError::PendingAdminCommand)
    } else {
        None
    }
}

/// Why the commit of the pending merge cannot be proposed, if it cannot.
/// `target_now` is the target as the cluster knows it now; `entries` are
/// the source's log entries after the smallest matched index, up to the
/// prepare.
pub open spec fn commit_proposal_error(
    v: ReplicaView,
    target_now: RegionView,
    entries: Seq<LogEntry>,
) -> Option<MergeError> {
    match v.local.merge_state {
        None => Some(MergeError::NotMerging),
        Some(m) => {
            if v.local.state != PeerState::Merging {
                Some(MergeError::NotMerging)
            } else if target_now.id != m.target.id || target_now.epoch != m.target.epoch {
                Some(MergeError::EpochMismatch)
            } else if m.min_index > m.commit || entries.len() != m.commit - m.min_index
                || !contiguous_from(entries, m.min_index + 1) {
                Some(MergeError::LogCompacted)
            } else {
                None
            }
        },
    }
}

/// What a tick of the merge timer asks for.
#[derive(Clone, Copy, Debug, PartialEq, Eq, Structural)]
pub enum MergeTick {
    /// No merge is pending.
    Idle,
    /// The merge is pending and may still complete.
    Wait,
    /// The wait is over: propose to roll the merge back at this version.
    Rollback { version: u64 },
}

/// What to do about a pending merge, given what the cluster says of the
/// target.
#[derive(Clone, Copy, Debug, PartialEq, Eq, Structural)]
pub enum MergeAction {
    /// No merge is pending.
    Nothing,
    /// The target is as it was when the merge was prepared: propose the
    /// commit.
    ProposeCommit,
    /// The target's range reaches over this region: the merge is committed
    /// elsewhere, and this replica awaits the entries or the snapshot that
    /// retire it.
    AwaitCommit,
    /// The target changed or is gone: propose to roll the merge back at
    /// this version.
    ProposeRollback { version: u64 },
}

/// Whether the range of `outer` reaches over that of `inner`.
pub open spec fn reaches_over(outer: RegionView, inner: RegionView) -> bool {
    &&& crate::keys::key_le(outer.start_key, inner.start_key)
    &&& outer.end_key.len() == 0 || (inner.end_key.len() != 0 && crate::keys::key_le(
        inner.end_key,
        outer.end_key,
    ))
}

/// What to do about the merge that `s` may be in, given the target as the
/// cluster knows it now, if it knows it.
pub open spec fn merge_action(s: LocalStateView, target_now: Option<RegionView>) -> MergeAction {
    match s.merge_state {
        None => MergeAction::Nothing,
        Some(m) => {
            if s.state != PeerState::Merging {
                MergeAction::Nothing
            } else {
                match target_now {
                    None => MergeAction::ProposeRollback { version: s.region.epoch.version },
                    Some(t) => {
                        if t.id != m.target.id {
                            MergeAction::ProposeRollback { version: s.region.epoch.version }
                        } else if t.epoch == m.target.epoch {
                            MergeAction::ProposeCommit
                        } else if reaches_over(t, s.region) {
                            MergeAction::AwaitCommit
                        } else {
                            MergeAction::ProposeRollback { version: s.region.epoch.version }
                        }
                    },
                }
            }
        },
    }
}

/// The smallest of the indices; `u64::MAX` where there is none.
pub fn smallest_index(matched: &[u64]) -> (r: u64)
    ensures
        r == min_index_of(matched@),
{
    let mut r: u64 = u64::MAX;
    let mut i: usize = 0;
    assert(matched@.take(0) =~= Seq::<u64>::empty());
    while i < matched.len()
        invariant
            0 <= i <= matched@.len(),
            r == min_index_of(matched@.take(i as int)),
        decreases matched@.len() - i,
    {
        proof {
            assert(matched@.take(i + 1).drop_last() =~= matched@.take(i as int));
        }
        if matched[i] < r {
            r = matched[i];
        }
        i += 1;
    }
    assert(matched@.take(matched@.len() as int) =~= matched@);
    r
}

/// Whether the entries have the indices `first`, `first + 1`, and so on.
pub fn is_contiguous_from(entries: &Vec<LogEntry>, first: u64) -> (r: bool)
    ensures
        r == contiguous_from(entries@, first as int),
{
    let mut i: usize = 0;
    let mut expect: u64 = first;
    while i < entries.len()
        invariant
            0 <= i <= entries@.len(),
            expect == first + i,
            forall|k: int| 0 <= k < i ==> (#[trigger] entries@[k]).index == first + k,
        decreases entries@.len() - i,
    {
        if entries[i].index != expect {
            assert(entries@[i as int].index != first + i);
            return false;
        }
        if expect == u64::MAX {
            if i + 1 < entries.len() {
                assert(entries@[i + 1].index != first + (i + 1));
                return false;
            }
            return true;
        }
        expect = expect + 1;
        i += 1;
    }
    true
}

/// Whether every entry is a plain write.
pub fn are_all_writes(entries: &Vec<LogEntry>) -> (r: bool)
    ensures
        r == all_writes(entries@),
{
    let mut i: usize = 0;
    while i < entries.len()
        invariant
            0 <= i <= entries@.len(),
            forall|k: int| 0 <= k < i ==> (#[trigger] entries@[k]).cmd is Write,
        decreases entries@.len() - i,
    {
        match &entries[i].cmd {
            Command::Write { .. } => {},
            _ => {
                assert(!(entries@[i as int].cmd is Write));
                return false;
            },
        }
        i += 1;
    }
    true
}

impl Region {
    /// Whether this range reaches over that of `inner`.
    pub fn reaches_over(&self, inner: &Region) -> (r: bool)
        ensures
            r == reaches_over(self@, inner@),
    {
        proof {
            crate::keys::lemma_le_iff_not_gt(self@.start_key, inner@.start_key);
            crate::keys::lemma_le_iff_not_gt(inner@.end_key, self@.end_key);
        }
        !crate::keys::key_less(inner.start_key.as_slice(), self.start_key.as_slice()) && (
        self.end_key.len() == 0 || (inner.end_key.len() != 0 && !crate::keys::key_less(
            self.end_key.as_slice(),
            inner.end_key.as_slice(),
        )))
    }
}

impl RegionLocalState {
    /// What to do about the merge that this replica may be in, given the
    /// target as the cluster knows it now, if it knows it. A merging replica
    /// is never told to do nothing.
    pub fn resolve_merge(&self, target_now: Option<&Region>) -> (r: MergeAction)
        ensures
            r == merge_action(
                self@,
                match target_now {
                    Some(t) => Some(t@),
                    None => None,
                },
            ),
            self@.wf() && self@.state == PeerState::Merging ==> r != MergeAction::Nothing,
    {
        match &self.merge_state {
            None => MergeAction::Nothing,
            Some(m) => {
                if self.state != PeerState::Merging {
                    MergeAction::Nothing
                } else {
                    match target_now {
                        None => MergeAction::ProposeRollback { version: self.region.epoch.version },
                        Some(t) => {
                            if t.id != m.target.id {
                                MergeAction::ProposeRollback {
                                    version: self.region.epoch.version,
                                }
                            } else if t.epoch == m.target.epoch {
                                MergeAction::ProposeCommit
                            } else if t.reaches_over(&self.region) {
                                MergeAction::AwaitCommit
                            } else {
                                MergeAction::ProposeRollback {
                                    version: self.region.epoch.version,
                                }
                            }
                        },
                    }
                }
            },
        }
    }
}

impl Replica {
    /// Whether a command of `kind` made for `epoch` may be proposed now.
    pub fn check_proposal(&self, kind: CommandKind, epoch: &RegionEpoch) -> (r: Result<
        (),
        MergeError,
    >)
        ensures
            match admission(self@.local, kind, *epoch) {
                Some(e) => r == Err::<(), MergeError>(e),
                None => r is Ok,
            },
    {
        match self.local.check_admission(kind, epoch) {
            Some(e) => Err(e),
            None => Ok(()),
        }
    }

    /// Makes the command that starts the merge of this region into
    /// `target`, or says why such a merge cannot be proposed now. The
    /// command carries the smallest matched index; the distance from there
    /// to the end of the log is at most `max_gap`.
    pub fn propose_prepare_merge(
        &self,
        epoch: &RegionEpoch,
        target: &Region,
        matched: &[u64],
        last_index: u64,
        max_gap: u64,
        gap: &Vec<LogEntry>,
    ) -> (r: Result<AdminCommand, MergeError>)
        ensures
            match prepare_proposal_error(
                self@,
                *epoch,
                target@,
                matched@,
                last_index,
                max_gap,
                gap@,
            ) {
                Some(e) => r == Err::<AdminCommand, MergeError>(e),
                None => r matches Ok(AdminCommand::PrepareMerge { target: t, min_index }) && t@
                    == target@ && min_index == min_index_of(matched@) && last_index - min_index
                    <= max_gap,
            },
    {
        let min_index = smallest_index(matched);
        if let Some(e) = self.local.check_prepare(epoch, last_index, target, min_index) {
            return Err(e);
        }
        if matched.len() != self.local.region.peers.len() {
            return Err(MergeError::ReplicaSetMismatch);
        }
        if last_index - min_index > max_gap {
            return Err(MergeError::LogGapTooLarge);
        }
        if min_index < self.truncated_index {
            return Err(MergeError::LogCompacted);
        }
        let gap_fits = gap.len() as u64 == last_index - min_index && (gap.len() == 0
            || is_contiguous_from(gap, min_index + 1));
        if !gap_fits {
            return Err(MergeError::InvalidMerge);
        }
        if !are_all_writes(gap) {
            return Err(MergeError::PendingAdminCommand);
        }
        Ok(AdminCommand::PrepareMerge { target: target.clone(), min_index })
    }

    /// Makes the command that commits the pending merge on the target's
    /// log, or says why it cannot be proposed now: `EpochMismatch` where the
    /// target is no longer what it was when the merge was prepared, which
    /// calls for a rollback.
    pub fn propose_commit_merge(&self, target_now: &Region, entries: Vec<LogEntry>) -> (r: Result<
        AdminCommand,
        MergeError,
    >)
        ensures
            match commit_proposal_error(self@, target_now@, entries@) {
                Some(e) => r == Err::<AdminCommand, MergeError>(e),
                None => r matches Ok(AdminCommand::CommitMerge { source, entries: carried })
                    && source@ == self@.local && carried@ == entries@,
            },
    {
        match &self.local.merge_state {
            None => Err(MergeError::NotMerging),
            Some(m) => {
                if self.local.state != PeerState::Merging {
                    return Err(MergeError::NotMerging);
                }
                if target_now.id != m.target.id || target_now.epoch != m.target.epoch {
                    return Err(MergeError::EpochMismatch);
                }
                let covered = m.min_index <= m.commit && entries.len() as u64 == m.commit
                    - m.min_index && (entries.len() == 0 || is_contiguous_from(
                    &entries,
                    m.min_index + 1,
                ));
                if !covered {
                    return Err(MergeError::LogCompacted);
                }
                Ok(AdminCommand::CommitMerge { source: self.local.clone(), entries })
            },
        }
    }

    /// One tick of the merge timer. While a merge is pending the replica
    /// waits for at most `limit` ticks and then asks for a rollback.
    pub fn on_merge_tick(&mut self, limit: u64) -> (r: MergeTick)
        ensures
            final(self)@ == (ReplicaView {
                merge_ticks: if old(self)@.local.state == PeerState::Merging && old(self)@.merge_ticks < limit {
                    (old(self)@.merge_ticks + 1) as u64
                } else if old(self)@.local.state == PeerState::Merging {
                    old(self)@.merge_ticks
                } else {
                    0
                },
                ..old(self)@
            }),
            r == if old(self)@.local.state != PeerState::Merging {
                MergeTick::Idle
            } else if old(self)@.merge_ticks < limit {
                MergeTick::Wait
            } else {
                MergeTick::Rollback { version: old(self)@.local.region.epoch.version }
            },
    {
        if self.local.state != PeerState::Merging {
            self.merge_ticks = 0;
            MergeTick::Idle
        } else if self.merge_ticks < limit {
            self.merge_ticks = self.merge_ticks + 1;
            MergeTick::Wait
        } else {
            MergeTick::Rollback { version: self.local.region.epoch.version }
        }
    }
}

} // verus!
