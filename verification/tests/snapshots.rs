use region_merge::collector::SnapshotCollector;
use region_merge::command::MergeError;
use region_merge::region::{Peer, Region, RegionEpoch};
use region_merge::replica::Replica;
use region_merge::snapshot::Snapshot;
use region_merge::state::{MergeState, PeerState, RegionLocalState};
use region_merge::store::Store;

fn epoch(version: u64, conf_ver: u64) -> RegionEpoch {
    RegionEpoch { version, conf_ver }
}

fn region(id: u64, start: &[u8], end: &[u8], e: RegionEpoch) -> Region {
    let peers = [1u64, 2].iter().map(|s| Peer { id: id * 100 + *s, store_id: *s, region_id: id });
    Region::new(id, start.to_vec(), end.to_vec(), e, peers.collect())
}

fn snapshot(r: Region, index: u64) -> Snapshot {
    Snapshot { local: RegionLocalState::new(r), index }
}

/// Region 1 over `[, m)` merging into region 2 over `[m, )`.
fn merging(index: u64) -> RegionLocalState {
    let mut s = RegionLocalState::new(region(1, b"", b"m", epoch(2, 1)));
    s.apply_prepare_merge(&epoch(2, 1), index, &region(2, b"m", b"", epoch(2, 1)), index).unwrap();
    s
}

fn replica(r: Region, applied: u64) -> Replica {
    let mut replica = Replica::new(1, RegionLocalState::new(r));
    replica.applied_index = applied;
    replica
}

#[test]
fn a_snapshot_replaces_what_the_replica_holds() {
    let mut r = replica(region(1, b"", b"m", epoch(2, 1)), 5);
    r.merge_ticks = 4;
    let snap = snapshot(region(1, b"", b"f", epoch(3, 2)), 9);
    assert!(snap.is_valid());
    assert_eq!(r.apply_snapshot(&snap), Ok(()));
    assert_eq!(r.local.region, region(1, b"", b"f", epoch(3, 2)));
    assert_eq!(r.local.state, PeerState::Normal);
    assert_eq!(r.applied_index, 9);
    assert_eq!(r.truncated_index, 9);
    assert_eq!(r.merge_ticks, 0);
    assert_eq!(r.store_id, 1);
    assert!(r.is_well_formed());
}

#[test]
fn a_snapshot_that_is_not_ahead_is_stale() {
    let mut r = replica(region(1, b"", b"m", epoch(2, 3)), 5);
    for (e, index) in [(epoch(2, 3), 5), (epoch(2, 3), 4), (epoch(1, 3), 9), (epoch(2, 2), 9), (epoch(3, 2), 9)] {
        let snap = snapshot(region(1, b"", b"m", e), index);
        assert_eq!(r.apply_snapshot(&snap), Err(MergeError::StaleSnapshot));
    }
    assert_eq!(r.applied_index, 5);
    assert_eq!(r.local.region.epoch, epoch(2, 3));
    assert_eq!(r.apply_snapshot(&snapshot(region(1, b"", b"m", epoch(2, 3)), 6)), Ok(()));
}

#[test]
fn a_snapshot_that_makes_no_sense_is_refused() {
    let mut r = replica(region(1, b"", b"m", epoch(2, 1)), 5);
    // Of another region.
    let other = snapshot(region(2, b"", b"m", epoch(2, 1)), 9);
    assert_eq!(r.apply_snapshot(&other), Err(MergeError::CorruptState));
    // With an empty range.
    let empty = snapshot(region(1, b"m", b"m", epoch(2, 1)), 9);
    assert!(!empty.is_valid());
    assert_eq!(r.apply_snapshot(&empty), Err(MergeError::CorruptState));
    // In a state that no sender is in.
    for state in [PeerState::Tombstone, PeerState::Applying] {
        let mut snap = snapshot(region(1, b"", b"m", epoch(2, 1)), 9);
        snap.local.state = state;
        assert!(!snap.is_valid());
        assert_eq!(r.apply_snapshot(&snap), Err(MergeError::CorruptState));
    }
    // Merging, with a prepare after the snapshot's own index.
    let early = Snapshot { local: merging(10), index: 9 };
    assert!(!early.is_valid());
    assert_eq!(r.apply_snapshot(&early), Err(MergeError::CorruptState));
    // A retired replica takes none.
    r.local.state = PeerState::Tombstone;
    let fine = snapshot(region(1, b"", b"m", epoch(2, 1)), 9);
    assert_eq!(r.apply_snapshot(&fine), Err(MergeError::RegionNotFound));
}

#[test]
fn a_normal_snapshot_clears_the_merging_marker() {
    let mut r = replica(region(1, b"", b"m", epoch(2, 1)), 6);
    r.local = merging(6);
    assert_eq!(r.local.state, PeerState::Merging);
    // The sender rolled the merge back.
    let snap = snapshot(region(1, b"", b"m", epoch(4, 2)), 8);
    assert_eq!(r.apply_snapshot(&snap), Ok(()));
    assert_eq!(r.local.state, PeerState::Normal);
    assert!(r.local.merge_state.is_none());
    assert_eq!(r.local.region.epoch, epoch(4, 2));
}

#[test]
fn a_merging_snapshot_keeps_the_merge_under_way() {
    let mut r = replica(region(1, b"", b"m", epoch(2, 1)), 6);
    r.local = merging(6);
    r.merge_ticks = 7;
    let snap = Snapshot { local: merging(6), index: 8 };
    assert!(snap.is_valid());
    assert_eq!(r.apply_snapshot(&snap), Ok(()));
    assert_eq!(r.local.state, PeerState::Merging);
    let m: &MergeState = r.local.merge_state.as_ref().unwrap();
    assert_eq!(m.commit, 6);
    assert_eq!(m.target.id, 2);
    // The timer starts anew.
    assert_eq!(r.merge_ticks, 0);
    assert!(r.is_well_formed());

    // A replica that lagged behind the prepare learns of it by snapshot.
    let mut lagging = replica(region(1, b"", b"m", epoch(2, 1)), 3);
    assert_eq!(lagging.apply_snapshot(&snap), Ok(()));
    assert_eq!(lagging.local.state, PeerState::Merging);
}

#[test]
fn a_store_gets_a_replica_from_a_snapshot() {
    let mut store = Store::new(1);
    let snap = snapshot(region(2, b"m", b"", epoch(2, 1)), 7);
    assert_eq!(store.apply_snapshot(&snap), Ok(vec![]));
    assert_eq!(store.len(), 1);
    assert_eq!(store.replica(0).applied_index, 7);
    assert_eq!(store.replica(0).truncated_index, 7);
    assert_eq!(store.replica(0).store_id, 1);
    assert_eq!(store.get_region(b"x").unwrap().id, 2);
    assert!(store.get_region(b"a").is_none());
}

#[test]
fn a_snapshot_after_the_merge_retires_the_merging_source() {
    let mut store = Store::new(1);
    let mut source = replica(region(1, b"", b"m", epoch(2, 1)), 6);
    source.local = merging(6);
    store.insert(source).unwrap();
    store.insert(replica(region(2, b"m", b"", epoch(2, 1)), 3)).unwrap();
    store.insert(replica(region(3, b"zz", b"zzz", epoch(1, 1)), 0)).unwrap_err();

    let merged = snapshot(region(2, b"", b"", epoch(4, 1)), 9);
    assert_eq!(store.apply_snapshot(&merged), Ok(vec![1]));
    assert_eq!(store.region_state(1).unwrap().state, PeerState::Tombstone);
    assert!(store.region_state(1).unwrap().merge_state.is_none());
    assert!(store.get_region_by_id(1).is_none());
    assert_eq!(store.get_region(b"a").unwrap().id, 2);
    assert_eq!(store.get_region(b"x").unwrap().id, 2);
    assert_eq!(store.get_region_by_id(2).unwrap().epoch, epoch(4, 1));
}

#[test]
fn a_snapshot_that_runs_into_another_region_is_refused() {
    // A replica that is not merging.
    let mut store = Store::new(1);
    store.insert(replica(region(1, b"", b"m", epoch(2, 1)), 6)).unwrap();
    store.insert(replica(region(2, b"m", b"", epoch(2, 1)), 3)).unwrap();
    let merged = snapshot(region(2, b"", b"", epoch(4, 1)), 9);
    assert_eq!(store.apply_snapshot(&merged), Err(MergeError::RangeOverlap));
    assert_eq!(store.get_region(b"a").unwrap().id, 1);
    assert_eq!(store.replica(1).applied_index, 3);

    // A replica that merges into another region.
    let mut store = Store::new(1);
    let mut source = replica(region(1, b"", b"m", epoch(2, 1)), 6);
    source.local = merging(6);
    store.insert(source).unwrap();
    let stranger = snapshot(region(7, b"a", b"", epoch(4, 1)), 9);
    assert_eq!(store.apply_snapshot(&stranger), Err(MergeError::RangeOverlap));

    // A snapshot that holds only part of the source's range.
    let mut store = Store::new(1);
    let mut source = replica(region(1, b"", b"m", epoch(2, 1)), 6);
    source.local = merging(6);
    store.insert(source).unwrap();
    let partial = snapshot(region(2, b"f", b"", epoch(4, 1)), 9);
    assert_eq!(store.apply_snapshot(&partial), Err(MergeError::RangeOverlap));
    assert_eq!(store.region_state(1).unwrap().state, PeerState::Merging);
    assert_eq!(store.len(), 1);
}

#[test]
fn a_store_refuses_what_its_replica_refuses() {
    let mut store = Store::new(1);
    store.insert(replica(region(2, b"m", b"", epoch(2, 1)), 3)).unwrap();
    let stale = snapshot(region(2, b"m", b"", epoch(2, 1)), 3);
    assert_eq!(store.apply_snapshot(&stale), Err(MergeError::StaleSnapshot));
    let mut broken = snapshot(region(2, b"m", b"", epoch(2, 1)), 9);
    broken.local.state = PeerState::Tombstone;
    assert_eq!(store.apply_snapshot(&broken), Err(MergeError::CorruptState));
}

#[test]
fn the_collector_keeps_one_snapshot_per_region_and_epoch() {
    let mut c = SnapshotCollector::new();
    assert_eq!(c.len(), 0);
    assert!(c.authoritative(1).is_none());
    assert!(c.take(1).is_none());
    assert!(c.offer(snapshot(region(1, b"", b"m", epoch(2, 1)), 5)));
    assert!(!c.offer(snapshot(region(1, b"", b"m", epoch(2, 1)), 8)));
    assert!(c.offer(snapshot(region(1, b"", b"m", epoch(2, 2)), 6)));
    assert!(c.offer(snapshot(region(2, b"m", b"", epoch(2, 1)), 5)));
    assert_eq!(c.len(), 3);
    assert_eq!(c.pending_for(1), 2);
    assert_eq!(c.pending_for(2), 1);
    assert_eq!(c.pending_for(3), 0);
}

#[test]
fn the_highest_epoch_wins_whatever_the_order_of_arrival() {
    let epochs = [epoch(2, 1), epoch(3, 1), epoch(2, 9), epoch(3, 4), epoch(1, 7)];
    let orders: [[usize; 5]; 4] = [[0, 1, 2, 3, 4], [4, 3, 2, 1, 0], [3, 0, 4, 1, 2], [1, 2, 3, 4, 0]];
    for order in orders {
        let mut c = SnapshotCollector::new();
        for at in order {
            assert!(c.offer(snapshot(region(1, b"", b"m", epochs[at]), at as u64)));
            assert!(c.offer(snapshot(region(2, b"m", b"", epochs[at]), 0)));
        }
        assert_eq!(c.authoritative_position(1).map(|p| order[p / 2]), Some(3));
        let best = c.authoritative(1).unwrap();
        assert_eq!(best.local.region.epoch, epoch(3, 4));
        assert_eq!(best.index, 3);
        let taken = c.take(1).unwrap();
        assert_eq!(taken.local.region.epoch, epoch(3, 4));
        assert_eq!(taken.index, 3);
        // Nothing of that region is left, and the other region is untouched.
        assert_eq!(c.pending_for(1), 0);
        assert!(c.authoritative(1).is_none());
        assert_eq!(c.len(), 5);
        assert_eq!(c.pending_for(2), 5);
        assert_eq!(c.take(2).unwrap().local.region.epoch, epoch(3, 4));
        assert_eq!(c.len(), 0);
    }
}

#[test]
fn snapshots_of_other_regions_stay_in_their_order() {
    let mut c = SnapshotCollector::new();
    for (id, version) in [(2, 1), (1, 1), (2, 2), (3, 1), (1, 2), (2, 3)] {
        assert!(c.offer(snapshot(region(id, b"", b"m", epoch(version, 1)), version)));
    }
    assert_eq!(c.take(1).unwrap().index, 2);
    assert_eq!(c.len(), 4);
    assert_eq!(c.authoritative_position(3), Some(2));
    assert_eq!(c.authoritative_position(2), Some(3));
    assert_eq!(c.take(3).unwrap().local.region.id, 3);
    assert_eq!(c.authoritative_position(2), Some(2));
}

#[test]
fn a_replica_that_receives_a_snapshot_applies_nothing_until_it_is_in() {
    use_begin_and_apply(false);
    use_begin_and_apply(true);
}

fn use_begin_and_apply(was_merging: bool) {
    let mut r = replica(region(1, b"", b"m", epoch(2, 1)), 6);
    if was_merging {
        r.local = merging(6);
    }
    let before = r.local.region.epoch;
    let snap = snapshot(region(1, b"", b"m", epoch(4, 2)), 8);
    assert_eq!(r.begin_snapshot(&snap), Ok(()));
    assert_eq!(r.local.state, PeerState::Applying);
    assert_eq!(r.local.merge_state.is_some(), was_merging);
    assert_eq!(r.local.region.epoch, before);
    assert!(r.local.is_live());
    assert!(!r.local.is_serving());
    assert!(r.is_well_formed());
    assert_eq!(
        r.check_proposal(region_merge::command::CommandKind::Write, &before),
        Err(MergeError::SnapshotInProgress)
    );

    // Given up, the replica is what it was.
    let mut given_up = r.clone();
    assert!(given_up.abort_snapshot());
    let back = if was_merging { PeerState::Merging } else { PeerState::Normal };
    assert_eq!(given_up.local.state, back);
    assert_eq!(given_up.local.merge_state.is_some(), was_merging);
    assert!(!given_up.abort_snapshot());
    assert!(given_up.is_well_formed());

    // Taken in, it is what the snapshot says.
    assert_eq!(r.apply_snapshot(&snap), Ok(()));
    assert_eq!(r.local.state, PeerState::Normal);
    assert!(r.local.merge_state.is_none());
    assert_eq!(r.applied_index, 8);

    // A snapshot that would be refused marks nothing.
    let stale = snapshot(region(1, b"", b"m", epoch(4, 2)), 8);
    assert_eq!(r.begin_snapshot(&stale), Err(MergeError::StaleSnapshot));
    assert_eq!(r.local.state, PeerState::Normal);
}

#[test]
fn a_store_marks_and_unmarks_the_replica_that_receives() {
    let mut store = Store::new(1);
    store.insert(replica(region(1, b"", b"m", epoch(2, 1)), 6)).unwrap();
    store.insert(replica(region(2, b"m", b"", epoch(2, 1)), 3)).unwrap();
    let snap = snapshot(region(2, b"m", b"", epoch(3, 1)), 9);
    assert_eq!(store.check_snapshot(&snap), None);
    assert_eq!(store.begin_snapshot(&snap), Ok(()));
    assert_eq!(store.region_state(2).unwrap().state, PeerState::Applying);
    assert_eq!(store.region_state(1).unwrap().state, PeerState::Normal);
    // The range stays taken while the snapshot comes in.
    assert_eq!(store.get_region(b"x").unwrap().id, 2);
    assert!(store.is_well_formed());
    assert!(store.abort_snapshot(2));
    assert_eq!(store.region_state(2).unwrap().state, PeerState::Normal);
    assert!(!store.abort_snapshot(2));
    assert!(!store.abort_snapshot(9));

    assert_eq!(store.begin_snapshot(&snap), Ok(()));
    assert_eq!(store.apply_snapshot(&snap), Ok(vec![]));
    assert_eq!(store.region_state(2).unwrap().state, PeerState::Normal);
    assert_eq!(store.get_region_by_id(2).unwrap().epoch, epoch(3, 1));

    // What would be refused is refused before anything is marked.
    let merged = snapshot(region(2, b"", b"", epoch(4, 1)), 12);
    assert_eq!(store.check_snapshot(&merged), Some(MergeError::RangeOverlap));
    assert_eq!(store.begin_snapshot(&merged), Err(MergeError::RangeOverlap));
    assert_eq!(store.region_state(2).unwrap().state, PeerState::Normal);
    // For a region that the store does not hold there is nothing to mark.
    let fresh = snapshot(region(3, b"zz", b"zzz", epoch(1, 1)), 2);
    assert_eq!(store.begin_snapshot(&fresh), Err(MergeError::RangeOverlap));
    let mut empty = Store::new(1);
    assert_eq!(empty.begin_snapshot(&fresh), Ok(()));
    assert_eq!(empty.len(), 0);
}
