use region_merge::command::{AdminCommand, Command, CommandKind, ConfChange, LogEntry, MergeError};
use region_merge::region::{Peer, Region, RegionEpoch};
use region_merge::replica::{Applied, Replica};
use region_merge::state::{MergeState, PeerState, RegionLocalState};

fn peer(store_id: u64, id: u64, region_id: u64) -> Peer {
    Peer { id, store_id, region_id }
}

fn epoch(version: u64, conf_ver: u64) -> RegionEpoch {
    RegionEpoch { version, conf_ver }
}

fn region(id: u64, start: &[u8], end: &[u8], e: RegionEpoch, stores: &[u64]) -> Region {
    let peers = stores.iter().map(|s| peer(*s, id * 100 + *s, id)).collect();
    Region::new(id, start.to_vec(), end.to_vec(), e, peers)
}

/// Region 1 over `[a, m)` on stores 1 and 2, at epoch (5, 7).
fn source() -> RegionLocalState {
    RegionLocalState::new(region(1, b"a", b"m", epoch(5, 7), &[1, 2]))
}

/// Region 2 over `[m, z)` on stores 1 and 2, at epoch (4, 9).
fn target() -> Region {
    region(2, b"m", b"z", epoch(4, 9), &[2, 1])
}

fn merging() -> RegionLocalState {
    let mut s = source();
    s.apply_prepare_merge(&epoch(5, 7), 20, &target(), 15).unwrap();
    s
}

fn admin(index: u64, e: RegionEpoch, cmd: AdminCommand) -> LogEntry {
    LogEntry { index, epoch: e, cmd: Command::Admin(cmd) }
}

#[test]
fn admission_goes_by_state_then_epoch_then_kind() {
    let mut s = source();
    assert_eq!(s.check_admission(CommandKind::Split, &epoch(5, 7)), None);
    assert_eq!(
        s.check_admission(CommandKind::Split, &epoch(4, 7)),
        Some(MergeError::EpochMismatch)
    );
    assert_eq!(
        s.check_admission(CommandKind::Split, &epoch(6, 7)),
        Some(MergeError::EpochMismatch)
    );
    assert_eq!(
        s.check_admission(CommandKind::Split, &epoch(5, 6)),
        Some(MergeError::EpochMismatch)
    );
    // Every kind of command is fenced by both counters, older or newer.
    for kind in [
        CommandKind::Write,
        CommandKind::Split,
        CommandKind::ChangePeer,
        CommandKind::PrepareMerge,
        CommandKind::CommitMerge,
        CommandKind::RollbackMerge,
        CommandKind::CompactLog,
    ] {
        for stale in [epoch(4, 7), epoch(5, 6), epoch(4, 6), epoch(6, 7), epoch(5, 8), epoch(0, 0)] {
            assert_eq!(s.check_admission(kind, &stale), Some(MergeError::EpochMismatch));
        }
    }
    assert_eq!(s.check_admission(CommandKind::Write, &epoch(5, 7)), None);
    assert_eq!(s.check_admission(CommandKind::ChangePeer, &epoch(5, 7)), None);
    assert_eq!(s.check_admission(CommandKind::CompactLog, &epoch(5, 7)), None);
    assert!(s.region.epoch.matches(&epoch(5, 7)));
    assert!(!s.region.epoch.matches(&epoch(5, 6)));
    assert!(!s.region.epoch.matches(&epoch(4, 7)));
    assert_eq!(
        s.check_admission(CommandKind::RollbackMerge, &epoch(5, 7)),
        Some(MergeError::NotMerging)
    );

    s.state = PeerState::Applying;
    assert_eq!(
        s.check_admission(CommandKind::Write, &epoch(5, 7)),
        Some(MergeError::SnapshotInProgress)
    );
    s.state = PeerState::Tombstone;
    assert_eq!(
        s.check_admission(CommandKind::CompactLog, &epoch(5, 7)),
        Some(MergeError::RegionNotFound)
    );
}

#[test]
fn merging_region_refuses_what_would_reshape_it() {
    let s = merging();
    let now = epoch(6, 8);
    for kind in [
        CommandKind::Split,
        CommandKind::ChangePeer,
        CommandKind::PrepareMerge,
        CommandKind::CommitMerge,
    ] {
        assert_eq!(s.check_admission(kind, &now), Some(MergeError::MergeInProgress));
    }
    assert_eq!(s.check_admission(CommandKind::Write, &now), None);
    assert_eq!(s.check_admission(CommandKind::CompactLog, &now), None);
    assert_eq!(s.check_admission(CommandKind::RollbackMerge, &now), None);
    assert!(s.is_serving());
    assert!(s.is_live());
}

#[test]
fn split_cuts_the_range_and_raises_the_version_of_both() {
    let mut s = source();
    let right = s.apply_split(&epoch(5, 7), b"f", 9, &[31, 32]).unwrap();
    assert_eq!(s.region, region(1, b"a", b"f", epoch(6, 7), &[1, 2]));
    assert_eq!(s.state, PeerState::Normal);
    assert_eq!(
        right.region,
        Region::new(9, b"f".to_vec(), b"m".to_vec(), epoch(6, 7), vec![peer(1, 31, 9), peer(2, 32, 9)])
    );
    assert_eq!(right.state, PeerState::Normal);
    assert!(right.merge_state.is_none());
    assert!(s.is_well_formed() && right.is_well_formed());
}

#[test]
fn split_is_refused_on_the_edges_and_outside() {
    for key in [&b"a"[..], b"m", b"", b"z", b"A"] {
        let mut s = source();
        assert_eq!(
            s.apply_split(&epoch(5, 7), key, 9, &[31, 32]).err(),
            Some(MergeError::KeyNotInRegion)
        );
        assert_eq!(s.region, source().region);
    }
    // The key after the first one is inside.
    let mut s = source();
    assert!(s.apply_split(&epoch(5, 7), b"a\0", 9, &[31, 32]).is_ok());
}

#[test]
fn split_is_refused_with_ids_that_make_no_region() {
    let mut s = source();
    let e = epoch(5, 7);
    assert_eq!(s.apply_split(&e, b"f", 1, &[31, 32]).err(), Some(MergeError::InvalidSplit));
    assert_eq!(s.apply_split(&e, b"f", 9, &[31]).err(), Some(MergeError::InvalidSplit));
    assert_eq!(s.apply_split(&e, b"f", 9, &[31, 32, 33]).err(), Some(MergeError::InvalidSplit));
    assert_eq!(s.apply_split(&e, b"f", 9, &[31, 31]).err(), Some(MergeError::InvalidSplit));
    assert_eq!(s.apply_split(&epoch(4, 7), b"f", 9, &[31, 32]).err(), Some(MergeError::EpochMismatch));
    assert_eq!(s.region, source().region);
}

#[test]
fn counters_at_their_limit_are_not_raised() {
    let top = epoch(u64::MAX, u64::MAX);
    let mut s = RegionLocalState::new(region(1, b"a", b"m", top, &[1, 2]));
    assert_eq!(s.apply_split(&top, b"f", 9, &[31, 32]).err(), Some(MergeError::EpochExhausted));
    assert_eq!(
        s.apply_change_peer(&top, ConfChange::AddNode, peer(3, 7, 1)).err(),
        Some(MergeError::EpochExhausted)
    );
    let mut t = target();
    t.epoch = epoch(1, 1);
    assert_eq!(
        s.apply_prepare_merge(&top, 1, &t, 1).err(),
        Some(MergeError::EpochExhausted)
    );
    assert_eq!(s.region.epoch, top);

    let mut m = merging();
    m.region.epoch.version = u64::MAX;
    let at = m.region.epoch;
    assert_eq!(
        m.apply_rollback_merge(&at, u64::MAX).err(),
        Some(MergeError::EpochExhausted)
    );
    let mut t = RegionLocalState::new(target());
    assert_eq!(
        t.apply_commit_merge(&epoch(4, 9), &m).err(),
        Some(MergeError::EpochExhausted)
    );
}

#[test]
fn change_peer_adds_and_removes_and_raises_conf_ver() {
    let mut s = source();
    s.apply_change_peer(&epoch(5, 7), ConfChange::AddNode, peer(3, 77, 1)).unwrap();
    assert_eq!(s.region.epoch, epoch(5, 8));
    assert_eq!(s.region.peers, vec![peer(1, 101, 1), peer(2, 102, 1), peer(3, 77, 1)]);

    s.apply_change_peer(&epoch(5, 8), ConfChange::RemoveNode, peer(2, 102, 1)).unwrap();
    assert_eq!(s.region.epoch, epoch(5, 9));
    assert_eq!(s.region.peers, vec![peer(1, 101, 1), peer(3, 77, 1)]);
    assert!(s.is_well_formed());
}

#[test]
fn change_peer_is_refused_for_peers_that_do_not_fit() {
    let e = epoch(5, 7);
    let mut s = source();
    // Same store, same id, other region.
    for p in [peer(1, 77, 1), peer(3, 101, 1), peer(3, 77, 2)] {
        assert_eq!(
            s.apply_change_peer(&e, ConfChange::AddNode, p).err(),
            Some(MergeError::InvalidPeer)
        );
    }
    // Not there, or there under another id.
    for p in [peer(3, 77, 1), peer(1, 999, 1)] {
        assert_eq!(
            s.apply_change_peer(&e, ConfChange::RemoveNode, p).err(),
            Some(MergeError::InvalidPeer)
        );
    }
    assert_eq!(
        s.apply_change_peer(&epoch(5, 6), ConfChange::AddNode, peer(3, 77, 1)).err(),
        Some(MergeError::EpochMismatch)
    );
    assert_eq!(s.region, source().region);
}

#[test]
fn prepare_merge_records_the_merge_and_raises_both_counters() {
    let s = merging();
    assert_eq!(s.state, PeerState::Merging);
    assert_eq!(s.region, region(1, b"a", b"m", epoch(6, 8), &[1, 2]));
    let m = s.merge_state.as_ref().unwrap();
    assert_eq!(m.target, target());
    assert_eq!(m.commit, 20);
    assert_eq!(m.min_index, 15);
    assert!(s.is_well_formed());
}

#[test]
fn prepare_merge_is_refused_for_targets_that_do_not_fit() {
    let e = epoch(5, 7);
    let far = region(2, b"n", b"z", epoch(4, 9), &[1, 2]);
    let own = region(1, b"m", b"z", epoch(4, 9), &[1, 2]);
    let elsewhere = region(2, b"m", b"z", epoch(4, 9), &[1, 3]);
    let fewer = region(2, b"m", b"z", epoch(4, 9), &[1]);
    let empty = region(2, b"m", b"m", epoch(4, 9), &[1, 2]);
    let before = region(2, b"", b"a", epoch(4, 9), &[1, 2]);

    let mut s = source();
    assert_eq!(s.apply_prepare_merge(&e, 20, &far, 15).err(), Some(MergeError::NotAdjacent));
    assert_eq!(s.apply_prepare_merge(&e, 20, &own, 15).err(), Some(MergeError::NotAdjacent));
    assert_eq!(
        s.apply_prepare_merge(&e, 20, &elsewhere, 15).err(),
        Some(MergeError::ReplicaSetMismatch)
    );
    assert_eq!(
        s.apply_prepare_merge(&e, 20, &fewer, 15).err(),
        Some(MergeError::ReplicaSetMismatch)
    );
    assert_eq!(s.apply_prepare_merge(&e, 20, &empty, 15).err(), Some(MergeError::InvalidMerge));
    assert_eq!(s.apply_prepare_merge(&e, 20, &target(), 21).err(), Some(MergeError::InvalidMerge));
    assert_eq!(
        s.apply_prepare_merge(&epoch(5, 8), 20, &target(), 15).err(),
        Some(MergeError::EpochMismatch)
    );
    assert_eq!(s.state, PeerState::Normal);
    assert!(s.merge_state.is_none());
    // A target on the other side is as good.
    assert!(s.apply_prepare_merge(&e, 20, &before, 20).is_ok());
    // And a second merge is refused while the first is under way.
    assert_eq!(
        s.apply_prepare_merge(&epoch(6, 8), 21, &target(), 15).err(),
        Some(MergeError::MergeInProgress)
    );
}

#[test]
fn rollback_returns_to_normal_and_raises_the_version_once() {
    let mut s = merging();
    let at = epoch(6, 8);
    s.apply_rollback_merge(&at, 6).unwrap();
    assert_eq!(s.state, PeerState::Normal);
    assert!(s.merge_state.is_none());
    assert_eq!(s.region, region(1, b"a", b"m", epoch(7, 8), &[1, 2]));

    // The same rollback again changes nothing.
    assert_eq!(s.apply_rollback_merge(&at, 6).err(), Some(MergeError::EpochMismatch));
    assert_eq!(s.region.epoch, epoch(7, 8));
    assert_eq!(s.state, PeerState::Normal);
    // Nor does one made for the epoch the region has now.
    assert_eq!(s.apply_rollback_merge(&epoch(7, 8), 7).err(), Some(MergeError::NotMerging));
    assert_eq!(s.region.epoch, epoch(7, 8));
}

#[test]
fn rollback_for_another_version_is_refused() {
    let mut s = merging();
    assert_eq!(s.apply_rollback_merge(&epoch(6, 8), 5).err(), Some(MergeError::EpochMismatch));
    assert_eq!(s.apply_rollback_merge(&epoch(5, 7), 5).err(), Some(MergeError::EpochMismatch));
    assert_eq!(s.state, PeerState::Merging);
    assert_eq!(s.region.epoch, epoch(6, 8));
    assert!(s.merge_state.is_some());
}

#[test]
fn commit_merge_extends_the_target_over_the_source() {
    let mut t = RegionLocalState::new(target());
    t.apply_commit_merge(&epoch(4, 9), &merging()).unwrap();
    // One more than the larger version, the source's 6.
    assert_eq!(t.region, region(2, b"a", b"z", epoch(7, 9), &[2, 1]));
    assert_eq!(t.state, PeerState::Normal);

    // The other way round: the source lies after the target.
    let mut upper = RegionLocalState::new(region(3, b"m", b"", epoch(2, 1), &[1, 2]));
    let lower = region(4, b"a", b"m", epoch(9, 3), &[1, 2]);
    upper.apply_prepare_merge(&epoch(2, 1), 8, &lower, 8).unwrap();
    let mut t = RegionLocalState::new(lower);
    t.apply_commit_merge(&epoch(9, 3), &upper).unwrap();
    assert_eq!(t.region, region(4, b"a", b"", epoch(10, 3), &[1, 2]));
}

#[test]
fn commit_merge_is_refused_for_sources_that_do_not_fit() {
    let at = epoch(4, 9);
    let mut t = RegionLocalState::new(target());

    // A source that is not merging.
    assert_eq!(t.apply_commit_merge(&at, &source()).err(), Some(MergeError::InvalidMerge));
    // A source that merges into another region.
    let mut other = merging();
    other.merge_state.as_mut().unwrap().target = region(3, b"m", b"z", epoch(4, 9), &[2, 1]);
    assert_eq!(t.apply_commit_merge(&at, &other).err(), Some(MergeError::NotAdjacent));
    // A record whose target is not what it names.
    let mut odd = merging();
    odd.merge_state.as_mut().unwrap().target.id = 3;
    assert_eq!(t.apply_commit_merge(&at, &odd).err(), Some(MergeError::InvalidMerge));
    // A source prepared against another epoch of the target.
    let mut stale = merging();
    stale.merge_state.as_mut().unwrap().target.epoch = epoch(3, 9);
    assert_eq!(t.apply_commit_merge(&at, &stale).err(), Some(MergeError::EpochMismatch));
    // A malformed record.
    let mut broken = merging();
    broken.merge_state = Some(MergeState { target: target(), commit: 3, min_index: 4 });
    assert_eq!(t.apply_commit_merge(&at, &broken).err(), Some(MergeError::InvalidMerge));
    // A stale proposal.
    assert_eq!(t.apply_commit_merge(&epoch(3, 9), &merging()).err(), Some(MergeError::EpochMismatch));
    assert_eq!(t.region, target());

    // A target whose replicas moved since.
    let mut moved = RegionLocalState::new(region(2, b"m", b"z", epoch(4, 9), &[1, 3]));
    let mut s = merging();
    s.merge_state.as_mut().unwrap().target = moved.region.clone();
    assert_eq!(moved.apply_commit_merge(&at, &s).err(), Some(MergeError::ReplicaSetMismatch));
}

#[test]
fn retire_makes_a_tombstone_of_a_merging_replica_only() {
    let mut s = merging();
    assert!(s.retire());
    assert_eq!(s.state, PeerState::Tombstone);
    assert!(s.merge_state.is_none());
    assert!(!s.is_live());
    assert!(!s.is_serving());
    assert!(s.is_well_formed());
    assert!(!s.retire());

    let mut n = source();
    assert!(!n.retire());
    assert_eq!(n.state, PeerState::Normal);
}

#[test]
fn persisted_state_must_pair_merging_with_a_record() {
    let mut s = source();
    assert!(s.is_well_formed());
    s.state = PeerState::Merging;
    assert!(!s.is_well_formed());
    s.merge_state = Some(MergeState { target: target(), commit: 2, min_index: 1 });
    assert!(s.is_well_formed());
    s.state = PeerState::Normal;
    assert!(!s.is_well_formed());
    s.state = PeerState::Merging;
    s.merge_state.as_mut().unwrap().target.start_key = b"n".to_vec();
    assert!(!s.is_well_formed());
}

#[test]
fn entries_are_applied_in_log_order_only() {
    let mut r = Replica::new(1, source());
    let put = |index| LogEntry {
        index,
        epoch: epoch(5, 7),
        cmd: Command::Write { key: b"b".to_vec(), value: b"v".to_vec() },
    };
    assert_eq!(r.on_apply(&put(2)).err(), Some(MergeError::OutOfOrder));
    assert_eq!(r.on_apply(&put(0)).err(), Some(MergeError::OutOfOrder));
    assert_eq!(r.applied_index, 0);
    assert!(matches!(r.on_apply(&put(1)), Ok(Applied::Write)));
    assert_eq!(r.applied_index, 1);
    assert_eq!(r.on_apply(&put(1)).err(), Some(MergeError::OutOfOrder));
    assert!(matches!(r.on_apply(&put(2)), Ok(Applied::Write)));
    assert_eq!(r.applied_index, 2);

    r.applied_index = u64::MAX;
    assert_eq!(r.on_apply(&put(0)).err(), Some(MergeError::OutOfOrder));
}

#[test]
fn a_refused_entry_is_consumed_without_effect() {
    let mut r = Replica::new(1, source());
    let outside = LogEntry {
        index: 1,
        epoch: epoch(5, 7),
        cmd: Command::Write { key: b"m".to_vec(), value: b"v".to_vec() },
    };
    assert_eq!(r.on_apply(&outside).err(), Some(MergeError::KeyNotInRegion));
    assert_eq!(r.applied_index, 1);
    let stale = admin(2, epoch(4, 7), AdminCommand::RollbackMerge { version: 4 });
    assert_eq!(r.on_apply(&stale).err(), Some(MergeError::EpochMismatch));
    assert_eq!(r.applied_index, 2);
    assert_eq!(r.local.region, source().region);
}

#[test]
fn a_replica_removed_from_its_region_is_retired() {
    let mut r = Replica::new(2, source());
    let other = admin(
        1,
        epoch(5, 7),
        AdminCommand::ChangePeer { change: ConfChange::AddNode, peer: peer(3, 9, 1) },
    );
    assert!(matches!(r.on_apply(&other), Ok(Applied::PeerChanged)));
    assert_eq!(r.local.state, PeerState::Normal);
    let own = admin(
        2,
        epoch(5, 8),
        AdminCommand::ChangePeer { change: ConfChange::RemoveNode, peer: peer(2, 102, 1) },
    );
    assert!(matches!(r.on_apply(&own), Ok(Applied::Removed)));
    assert_eq!(r.local.state, PeerState::Tombstone);
    assert_eq!(r.local.region.epoch, epoch(5, 9));
    assert_eq!(r.local.region.peers, vec![peer(1, 101, 1), peer(3, 9, 1)]);
    assert!(r.is_well_formed());
    let late = admin(3, epoch(5, 9), AdminCommand::CompactLog { index: 1 });
    assert_eq!(r.on_apply(&late).err(), Some(MergeError::RegionNotFound));
}

#[test]
fn compaction_stops_at_what_is_applied_and_at_what_a_merge_needs() {
    let mut r = Replica::new(1, source());
    r.applied_index = 19;
    r.truncated_index = 10;
    let e = epoch(5, 7);
    assert_eq!(r.compact_bound(12), 12);
    assert_eq!(r.compact_bound(50), 19);

    let prepare = admin(20, e, AdminCommand::PrepareMerge { target: target(), min_index: 15 });
    assert!(matches!(r.on_apply(&prepare), Ok(Applied::Prepared)));
    assert_eq!(r.compact_bound(12), 12);
    assert_eq!(r.compact_bound(18), 15);
    assert_eq!(r.compact_bound(50), 15);

    let now = epoch(6, 8);
    let compact = admin(21, now, AdminCommand::CompactLog { index: 20 });
    assert!(matches!(r.on_apply(&compact), Ok(Applied::Compacted)));
    assert_eq!(r.truncated_index, 15);
    // An older compaction does not move the log back.
    let older = admin(22, now, AdminCommand::CompactLog { index: 11 });
    assert!(matches!(r.on_apply(&older), Ok(Applied::Compacted)));
    assert_eq!(r.truncated_index, 15);

    // Once the merge is rolled back the bound is gone.
    let rollback = admin(23, now, AdminCommand::RollbackMerge { version: 6 });
    assert!(matches!(r.on_apply(&rollback), Ok(Applied::RolledBack)));
    let compact = admin(24, epoch(7, 8), AdminCommand::CompactLog { index: 22 });
    assert!(matches!(r.on_apply(&compact), Ok(Applied::Compacted)));
    assert_eq!(r.truncated_index, 22);
    assert!(r.is_well_formed());
}

#[test]
fn prepare_is_refused_when_the_log_it_needs_is_gone() {
    let mut r = Replica::new(1, source());
    r.applied_index = 19;
    r.truncated_index = 16;
    let prepare =
        admin(20, epoch(5, 7), AdminCommand::PrepareMerge { target: target(), min_index: 15 });
    assert_eq!(r.on_apply(&prepare).err(), Some(MergeError::LogCompacted));
    assert_eq!(r.local.state, PeerState::Normal);
    assert_eq!(r.applied_index, 20);
    // What is wrong with the command itself is said first.
    let mut r = Replica::new(1, source());
    r.applied_index = 19;
    r.truncated_index = 16;
    let stale =
        admin(20, epoch(4, 7), AdminCommand::PrepareMerge { target: target(), min_index: 15 });
    assert_eq!(r.on_apply(&stale).err(), Some(MergeError::EpochMismatch));
}

#[test]
fn epochs_never_go_down_along_a_log() {
    let mut r = Replica::new(1, source());
    let mut last = r.local.region.epoch;
    let mut index = 0;
    let mut step = |r: &mut Replica, cmd: AdminCommand, at: RegionEpoch| {
        index += 1;
        let _ = r.on_apply(&admin(index, at, cmd));
        let now = r.local.region.epoch;
        assert!(now.version >= last.version && now.conf_ver >= last.conf_ver);
        last = now;
        now
    };
    let e = step(&mut r, AdminCommand::CompactLog { index: 0 }, epoch(5, 7));
    assert_eq!(e, epoch(5, 7));
    let e = step(
        &mut r,
        AdminCommand::Split { split_key: b"f".to_vec(), new_region_id: 9, new_peer_ids: vec![5, 6] },
        e,
    );
    assert_eq!(e, epoch(6, 7));
    let e = step(&mut r, AdminCommand::RollbackMerge { version: 6 }, e);
    assert_eq!(e, epoch(6, 7));
    let next = region(9, b"f", b"m", epoch(6, 7), &[1, 2]);
    let e = step(&mut r, AdminCommand::PrepareMerge { target: next, min_index: 1 }, e);
    assert_eq!(e, epoch(7, 8));
    let e = step(&mut r, AdminCommand::RollbackMerge { version: 7 }, e);
    assert_eq!(e, epoch(8, 8));
    let stale = step(&mut r, AdminCommand::RollbackMerge { version: 7 }, epoch(7, 8));
    assert_eq!(stale, epoch(8, 8));
}

#[test]
fn a_stale_entry_of_any_kind_is_consumed_without_effect() {
    // The region is at (5, 5); each entry was made for an older epoch.
    let at = epoch(5, 5);
    let fresh = || {
        let mut r = Replica::new(1, RegionLocalState::new(region(1, b"a", b"m", at, &[1, 2])));
        r.applied_index = 9;
        r.truncated_index = 3;
        r
    };
    let commands = || -> Vec<(RegionEpoch, Command)> {
        vec![
            (epoch(4, 4), Command::Admin(AdminCommand::CompactLog { index: 8 })),
            (epoch(5, 4), Command::Admin(AdminCommand::CompactLog { index: 8 })),
            (
                epoch(4, 5),
                Command::Admin(AdminCommand::ChangePeer {
                    change: ConfChange::AddNode,
                    peer: peer(3, 77, 1),
                }),
            ),
            (epoch(5, 4), Command::Write { key: b"b".to_vec(), value: b"v".to_vec() }),
            (epoch(4, 5), Command::Write { key: b"b".to_vec(), value: b"v".to_vec() }),
            (
                epoch(4, 5),
                Command::Admin(AdminCommand::Split {
                    split_key: b"f".to_vec(),
                    new_region_id: 9,
                    new_peer_ids: vec![31, 32],
                }),
            ),
            (epoch(5, 4), Command::Admin(AdminCommand::RollbackMerge { version: 5 })),
            (epoch(6, 5), Command::Admin(AdminCommand::CompactLog { index: 8 })),
        ]
    };
    for (stale, cmd) in commands() {
        let mut r = fresh();
        let entry = LogEntry { index: 10, epoch: stale, cmd };
        assert_eq!(r.on_apply(&entry).err(), Some(MergeError::EpochMismatch), "{:?}", entry);
        assert_eq!(r.applied_index, 10);
        assert_eq!(r.truncated_index, 3);
        assert_eq!(r.local.state, PeerState::Normal);
        assert!(r.local.merge_state.is_none());
        assert_eq!(r.local.region, region(1, b"a", b"m", at, &[1, 2]));
    }
    // Made for the epoch the region has, the same commands take effect.
    let mut r = fresh();
    let entry = LogEntry { index: 10, epoch: at, cmd: Command::Admin(AdminCommand::CompactLog { index: 8 }) };
    assert!(matches!(r.on_apply(&entry), Ok(Applied::Compacted)));
    assert_eq!(r.truncated_index, 8);
}
