use region_merge::command::{AdminCommand, Command, CommandKind, LogEntry, MergeError};
use region_merge::proposal::{
    are_all_writes, is_contiguous_from, smallest_index, MergeAction, MergeTick,
};
use region_merge::recovery::Recovery;
use region_merge::region::{Peer, Region, RegionEpoch};
use region_merge::replica::Replica;
use region_merge::state::{MergeState, PeerState, RegionLocalState};

fn epoch(version: u64, conf_ver: u64) -> RegionEpoch {
    RegionEpoch { version, conf_ver }
}

fn region(id: u64, start: &[u8], end: &[u8], e: RegionEpoch, stores: &[u64]) -> Region {
    let peers =
        stores.iter().map(|s| Peer { id: id * 100 + *s, store_id: *s, region_id: id }).collect();
    Region::new(id, start.to_vec(), end.to_vec(), e, peers)
}

fn target() -> Region {
    region(2, b"m", b"", epoch(2, 1), &[1, 2, 3])
}

/// The leader of region 1 over `[, m)`, with 20 entries applied and the log
/// compacted up to 12.
fn leader() -> Replica {
    let mut r = Replica::new(1, RegionLocalState::new(region(1, b"", b"m", epoch(2, 1), &[1, 2, 3])));
    r.applied_index = 20;
    r.truncated_index = 12;
    r
}

fn writes(first: u64, count: u64) -> Vec<LogEntry> {
    (first..first + count)
        .map(|index| LogEntry {
            index,
            epoch: epoch(2, 1),
            cmd: Command::Write { key: b"a".to_vec(), value: b"v".to_vec() },
        })
        .collect()
}

fn merging_leader() -> Replica {
    let mut r = leader();
    let prepare = LogEntry {
        index: 21,
        epoch: epoch(2, 1),
        cmd: Command::Admin(AdminCommand::PrepareMerge { target: target(), min_index: 18 }),
    };
    r.on_apply(&prepare).unwrap();
    r
}

#[test]
fn smallest_index_is_the_minimum() {
    assert_eq!(smallest_index(&[]), u64::MAX);
    assert_eq!(smallest_index(&[7]), 7);
    assert_eq!(smallest_index(&[9, 7, 8]), 7);
    assert_eq!(smallest_index(&[3, 3, 3]), 3);
    assert_eq!(smallest_index(&[u64::MAX, 0]), 0);
}

#[test]
fn entries_are_contiguous_when_each_index_follows_the_last() {
    assert!(is_contiguous_from(&writes(5, 3), 5));
    assert!(is_contiguous_from(&vec![], 5));
    assert!(!is_contiguous_from(&writes(5, 3), 4));
    assert!(!is_contiguous_from(&writes(5, 3), 6));
    let mut holed = writes(5, 3);
    holed[1].index = 7;
    assert!(!is_contiguous_from(&holed, 5));
    assert!(is_contiguous_from(&writes(u64::MAX, 1), u64::MAX));
    let mut past = writes(u64::MAX, 1);
    past.push(LogEntry { index: 0, epoch: epoch(2, 1), cmd: past_write() });
    assert!(!is_contiguous_from(&past, u64::MAX));
}

fn past_write() -> Command {
    Command::Write { key: b"a".to_vec(), value: b"v".to_vec() }
}

#[test]
fn entries_are_all_writes_without_an_admin_command_among_them() {
    assert!(are_all_writes(&vec![]));
    assert!(are_all_writes(&writes(1, 4)));
    let mut mixed = writes(1, 4);
    mixed[2].cmd = Command::Admin(AdminCommand::CompactLog { index: 1 });
    assert!(!are_all_writes(&mixed));
}

#[test]
fn proposals_pass_the_same_gate_as_entries() {
    let r = leader();
    assert_eq!(r.check_proposal(CommandKind::Split, &epoch(2, 1)), Ok(()));
    assert_eq!(r.check_proposal(CommandKind::Split, &epoch(1, 1)), Err(MergeError::EpochMismatch));
    let m = merging_leader();
    for kind in [CommandKind::Split, CommandKind::ChangePeer, CommandKind::PrepareMerge] {
        assert_eq!(m.check_proposal(kind, &epoch(3, 2)), Err(MergeError::MergeInProgress));
    }
    assert_eq!(m.check_proposal(CommandKind::Write, &epoch(3, 2)), Ok(()));
    assert_eq!(m.check_proposal(CommandKind::RollbackMerge, &epoch(3, 2)), Ok(()));
}

#[test]
fn prepare_carries_the_smallest_matched_index() {
    let r = leader();
    let cmd = r
        .propose_prepare_merge(&epoch(2, 1), &target(), &[20, 17, 19], 20, 3, &writes(18, 3))
        .unwrap();
    match cmd {
        AdminCommand::PrepareMerge { target: t, min_index } => {
            assert_eq!(t, target());
            assert_eq!(min_index, 17);
        }
        other => panic!("{:?}", other),
    }
    // With every replica caught up there is no gap to fill.
    let cmd = r.propose_prepare_merge(&epoch(2, 1), &target(), &[20, 20, 20], 20, 0, &vec![]);
    assert!(matches!(cmd, Ok(AdminCommand::PrepareMerge { min_index: 20, .. })));
}

#[test]
fn prepare_is_refused_when_a_replica_lags_too_far() {
    let r = leader();
    let e = epoch(2, 1);
    assert_eq!(
        r.propose_prepare_merge(&e, &target(), &[20, 17, 19], 20, 2, &writes(18, 3)).err(),
        Some(MergeError::LogGapTooLarge)
    );
    assert_eq!(
        r.propose_prepare_merge(&e, &target(), &[20, 20, 0], 20, 19, &writes(1, 20)).err(),
        Some(MergeError::LogGapTooLarge)
    );
    // Within the bound, but the log is gone.
    assert_eq!(
        r.propose_prepare_merge(&e, &target(), &[20, 11, 19], 20, 10, &writes(12, 9)).err(),
        Some(MergeError::LogCompacted)
    );
    assert!(r.propose_prepare_merge(&e, &target(), &[20, 12, 19], 20, 10, &writes(13, 8)).is_ok());
}

#[test]
fn prepare_is_refused_over_a_gap_that_is_not_plain_writes() {
    let r = leader();
    let e = epoch(2, 1);
    let mut gap = writes(18, 3);
    gap[1].cmd = Command::Admin(AdminCommand::CompactLog { index: 3 });
    assert_eq!(
        r.propose_prepare_merge(&e, &target(), &[20, 17, 19], 20, 5, &gap).err(),
        Some(MergeError::PendingAdminCommand)
    );
    // The gap must be given whole.
    for gap in [writes(18, 2), writes(17, 3), writes(18, 4), vec![]] {
        assert_eq!(
            r.propose_prepare_merge(&e, &target(), &[20, 17, 19], 20, 5, &gap).err(),
            Some(MergeError::InvalidMerge)
        );
    }
}

#[test]
fn prepare_is_refused_when_the_replica_sets_do_not_agree() {
    let r = leader();
    let e = epoch(2, 1);
    let elsewhere = region(2, b"m", b"", epoch(2, 1), &[1, 2, 4]);
    assert_eq!(
        r.propose_prepare_merge(&e, &elsewhere, &[20, 20, 20], 20, 5, &vec![]).err(),
        Some(MergeError::ReplicaSetMismatch)
    );
    // One index per replica.
    assert_eq!(
        r.propose_prepare_merge(&e, &target(), &[20, 20], 20, 5, &vec![]).err(),
        Some(MergeError::ReplicaSetMismatch)
    );
    // No matched index at all, or one past the end of the log.
    assert_eq!(
        r.propose_prepare_merge(&e, &target(), &[], 20, 5, &vec![]).err(),
        Some(MergeError::InvalidMerge)
    );
    assert_eq!(
        r.propose_prepare_merge(&e, &target(), &[21, 21, 21], 20, 5, &vec![]).err(),
        Some(MergeError::InvalidMerge)
    );
    let far = region(2, b"n", b"", epoch(2, 1), &[1, 2, 3]);
    assert_eq!(
        r.propose_prepare_merge(&e, &far, &[20, 20, 20], 20, 5, &vec![]).err(),
        Some(MergeError::NotAdjacent)
    );
    assert_eq!(
        r.propose_prepare_merge(&epoch(1, 1), &target(), &[20, 20, 20], 20, 5, &vec![]).err(),
        Some(MergeError::EpochMismatch)
    );
}

#[test]
fn commit_carries_the_frozen_source_and_the_entries_up_to_the_prepare() {
    let r = merging_leader();
    let cmd = r.propose_commit_merge(&target(), writes(19, 3)).unwrap();
    match cmd {
        AdminCommand::CommitMerge { source, entries } => {
            assert_eq!(source.state, PeerState::Merging);
            assert_eq!(source.region, region(1, b"", b"m", epoch(3, 2), &[1, 2, 3]));
            let m: &MergeState = source.merge_state.as_ref().unwrap();
            assert_eq!((m.commit, m.min_index), (21, 18));
            assert_eq!(entries.len(), 3);
            assert_eq!(entries[2].index, 21);
        }
        other => panic!("{:?}", other),
    }
}

#[test]
fn commit_is_refused_without_the_entries_or_against_a_changed_target() {
    let r = merging_leader();
    for entries in [writes(19, 2), writes(18, 3), writes(20, 3), vec![]] {
        assert_eq!(r.propose_commit_merge(&target(), entries).err(), Some(MergeError::LogCompacted));
    }
    let mut changed = target();
    changed.epoch.conf_ver = 2;
    assert_eq!(r.propose_commit_merge(&changed, writes(19, 3)).err(), Some(MergeError::EpochMismatch));
    let other = region(3, b"m", b"", epoch(2, 1), &[1, 2, 3]);
    assert_eq!(r.propose_commit_merge(&other, writes(19, 3)).err(), Some(MergeError::EpochMismatch));
    assert_eq!(leader().propose_commit_merge(&target(), vec![]).err(), Some(MergeError::NotMerging));
}

#[test]
fn a_pending_merge_is_always_resolved_one_way_or_the_other() {
    let m = merging_leader();
    let s = &m.local;
    assert_eq!(s.resolve_merge(Some(&target())), MergeAction::ProposeCommit);
    // The target changed and does not hold our range: roll back.
    let mut split = target();
    split.end_key = b"t".to_vec();
    split.epoch.version = 3;
    assert_eq!(s.resolve_merge(Some(&split)), MergeAction::ProposeRollback { version: 3 });
    let mut moved = target();
    moved.epoch.conf_ver = 2;
    assert_eq!(s.resolve_merge(Some(&moved)), MergeAction::ProposeRollback { version: 3 });
    // The target holds our range already: the merge is committed elsewhere.
    let absorbed = region(2, b"", b"", epoch(4, 1), &[1, 2, 3]);
    assert_eq!(s.resolve_merge(Some(&absorbed)), MergeAction::AwaitCommit);
    // The target is gone, or another region is shown in its place.
    assert_eq!(s.resolve_merge(None), MergeAction::ProposeRollback { version: 3 });
    let other = region(3, b"m", b"", epoch(2, 1), &[1, 2, 3]);
    assert_eq!(s.resolve_merge(Some(&other)), MergeAction::ProposeRollback { version: 3 });
    // Without a merge there is nothing to do.
    assert_eq!(leader().local.resolve_merge(Some(&target())), MergeAction::Nothing);
    assert_eq!(leader().local.resolve_merge(None), MergeAction::Nothing);
}

#[test]
fn the_merge_timer_counts_only_while_merging() {
    let mut idle = leader();
    idle.merge_ticks = 5;
    assert_eq!(idle.on_merge_tick(10), MergeTick::Idle);
    assert_eq!(idle.merge_ticks, 0);

    let mut m = merging_leader();
    assert_eq!(m.merge_ticks, 0);
    assert_eq!(m.on_merge_tick(2), MergeTick::Wait);
    assert_eq!(m.on_merge_tick(2), MergeTick::Wait);
    assert_eq!(m.merge_ticks, 2);
    assert_eq!(m.on_merge_tick(2), MergeTick::Rollback { version: 3 });
    assert_eq!(m.merge_ticks, 2);
    assert_eq!(m.on_merge_tick(0), MergeTick::Rollback { version: 3 });
    m.merge_ticks = u64::MAX;
    assert_eq!(m.on_merge_tick(u64::MAX), MergeTick::Rollback { version: 3 });
}

#[test]
fn restart_keeps_what_was_persisted() {
    let m = merging_leader();
    let (replica, recovery) =
        Replica::restart(1, m.local.clone(), m.applied_index, m.truncated_index).unwrap();
    assert_eq!(recovery, Recovery::ResumeMerge);
    assert_eq!(replica.local.state, PeerState::Merging);
    assert_eq!(replica.local.region, m.local.region);
    let record = replica.local.merge_state.as_ref().unwrap();
    assert_eq!((record.commit, record.min_index), (21, 18));
    assert_eq!(record.target, target());
    assert_eq!((replica.applied_index, replica.truncated_index, replica.merge_ticks), (21, 12, 0));

    let n = leader();
    let (_, recovery) = Replica::restart(1, n.local.clone(), 20, 12).unwrap();
    assert_eq!(recovery, Recovery::Serve);
    let mut applying = n.local.clone();
    applying.state = PeerState::Applying;
    assert_eq!(Replica::restart(1, applying, 0, 0).unwrap().1, Recovery::AwaitSnapshot);
    let mut gone = n.local.clone();
    gone.state = PeerState::Tombstone;
    assert_eq!(Replica::restart(1, gone, 20, 12).unwrap().1, Recovery::Retired);
}

#[test]
fn restart_refuses_state_that_the_protocol_cannot_produce() {
    let n = leader();
    // Merging without a record, and a record without merging.
    let mut odd = n.local.clone();
    odd.state = PeerState::Merging;
    assert_eq!(Replica::restart(1, odd, 20, 12).err(), Some(MergeError::CorruptState));
    let mut odd = merging_leader().local.clone();
    odd.state = PeerState::Normal;
    assert_eq!(Replica::restart(1, odd, 21, 12).err(), Some(MergeError::CorruptState));
    // A log compacted past what is applied.
    assert_eq!(Replica::restart(1, n.local.clone(), 20, 21).err(), Some(MergeError::CorruptState));
    // A merge prepared after what is applied.
    let m = merging_leader();
    assert_eq!(Replica::restart(1, m.local.clone(), 20, 12).err(), Some(MergeError::CorruptState));
    // An empty range.
    let mut empty = n.local.clone();
    empty.region.start_key = b"m".to_vec();
    assert_eq!(Replica::restart(1, empty, 20, 12).err(), Some(MergeError::CorruptState));
}
