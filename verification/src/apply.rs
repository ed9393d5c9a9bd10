//! The transitions of one replica's persisted state under the commands of
//! its log. Each transition either takes effect as a whole or leaves the
//! state as it was and says why.

use crate::command::{CommandKind, ConfChange, MergeError};
use crate::keys::{
    key_copy, key_less, key_lt, lemma_le_iff_not_gt, lemma_lt_le_transitive, lemma_lt_transitive,
};
use crate::region::{Peer, Region, RegionEpoch, RegionView};
use crate::state::{LocalStateView, MergeState, MergeStateView, PeerState, RegionLocalState};
use vstd::prelude::*;

verus! {

/// Whether a command proposed at epoch `given` may still be applied to a
/// region now at epoch `current`: only if neither counter has moved since.
/// This holds of every command, whatever its kind.
pub open spec fn epoch_matches(current: RegionEpoch, given: RegionEpoch) -> bool {
    given == current
}

/// Why a replica in state `s` turns down a command of `kind` proposed at
/// `epoch`, if it does. The same test guards proposing and applying.
pub open spec fn admission(s: LocalStateView, kind: CommandKind, epoch: RegionEpoch) -> Option<
    MergeError,
> {
    if s.state == PeerState::Tombstone {
        Some(MergeError::RegionNotFound)
    } else if s.state == PeerState::Applying {
        Some(MergeError::SnapshotInProgress)
    } else if !epoch_matches(s.region.epoch, epoch) {
        Some(MergeError::EpochMismatch)
    } else if s.state == PeerState::Merging && kind.spec_reshapes() {
        Some(MergeError::MergeInProgress)
    } else if s.state == PeerState::Normal && kind == CommandKind::RollbackMerge {
        Some(MergeError::NotMerging)
    } else {
        None
    }
}

/// No id occurs twice.
pub open spec fn distinct_ids(ids: Seq<u64>) -> bool {
    forall|i: int, j: int| 0 <= i < j < ids.len() ==> ids[i] != ids[j]
}

/// `key` is in the region and is not its first key.
pub open spec fn strictly_inside(r: RegionView, key: Seq<u8>) -> bool {
    key_lt(r.start_key, key) && (r.end_key.len() == 0 || key_lt(key, r.end_key))
}

/// The peers of the region that a split creates: one per existing peer, on
/// the same store, under the new ids.
pub open spec fn split_peers(peers: Seq<Peer>, ids: Seq<u64>, region_id: u64) -> Seq<Peer> {
    Seq::new(
        peers.len(),
        |i: int| Peer { id: ids[i], store_id: peers[i].store_id, region_id },
    )
}

/// Why a split is refused, if it is.
pub open spec fn split_error(
    s: LocalStateView,
    epoch: RegionEpoch,
    key: Seq<u8>,
    new_region_id: u64,
    new_peer_ids: Seq<u64>,
) -> Option<MergeError> {
    if admission(s, CommandKind::Split, epoch) is Some {
        admission(s, CommandKind::Split, epoch)
    } else if !strictly_inside(s.region, key) {
        Some(MergeError::KeyNotInRegion)
    } else if new_region_id == s.region.id || new_peer_ids.len() != s.region.peers.len()
        || !distinct_ids(new_peer_ids) {
        Some(MergeError::InvalidSplit)
    } else if s.region.epoch.version == u64::MAX {
        Some(MergeError::EpochExhausted)
    } else {
        None
    }
}

/// The epoch with its version raised by one.
pub open spec fn next_version(e: RegionEpoch) -> RegionEpoch {
    RegionEpoch { version: (e.version + 1) as u64, conf_ver: e.conf_ver }
}

/// The epoch with its replica-set version raised by one.
pub open spec fn next_conf_ver(e: RegionEpoch) -> RegionEpoch {
    RegionEpoch { version: e.version, conf_ver: (e.conf_ver + 1) as u64 }
}

/// The region that keeps the id after a split: the part before `key`.
pub open spec fn split_left(s: LocalStateView, key: Seq<u8>) -> LocalStateView {
    LocalStateView {
        region: RegionView { end_key: key, epoch: next_version(s.region.epoch), ..s.region },
        ..s
    }
}

/// The region that a split creates: the part from `key` on.
pub open spec fn split_right(
    s: LocalStateView,
    key: Seq<u8>,
    new_region_id: u64,
    new_peer_ids: Seq<u64>,
) -> LocalStateView {
    LocalStateView {
        state: PeerState::Normal,
        region: RegionView {
            id: new_region_id,
            start_key: key,
            end_key: s.region.end_key,
            epoch: next_version(s.region.epoch),
            peers: split_peers(s.region.peers, new_peer_ids, new_region_id),
        },
        merge_state: None,
    }
}

/// Why a replica change is refused, if it is.
pub open spec fn change_peer_error(
    s: LocalStateView,
    epoch: RegionEpoch,
    change: ConfChange,
    peer: Peer,
) -> Option<MergeError> {
    if admission(s, CommandKind::ChangePeer, epoch) is Some {
        admission(s, CommandKind::ChangePeer, epoch)
    } else if change == ConfChange::AddNode && (peer.region_id != s.region.id || exists|i: int|
        0 <= i < s.region.peers.len() && ((#[trigger] s.region.peers[i]).id == peer.id
            || s.region.peers[i].store_id == peer.store_id)) {
        Some(MergeError::InvalidPeer)
    } else if change == ConfChange::RemoveNode && !s.region.peers.contains(peer) {
        Some(MergeError::InvalidPeer)
    } else if s.region.epoch.conf_ver == u64::MAX {
        Some(MergeError::EpochExhausted)
    } else {
        None
    }
}

/// `i` is the first position at which `peer` stands.
pub open spec fn first_at(peers: Seq<Peer>, peer: Peer, i: int) -> bool {
    &&& 0 <= i < peers.len()
    &&& peers[i] == peer
    &&& forall|j: int| 0 <= j < i ==> peers[j] != peer
}

/// The first position at which `peer` stands.
pub open spec fn position_of(peers: Seq<Peer>, peer: Peer) -> int {
    choose|i: int| first_at(peers, peer, i)
}

/// The peers after a replica change.
pub open spec fn changed_peers(peers: Seq<Peer>, change: ConfChange, peer: Peer) -> Seq<Peer> {
    match change {
        ConfChange::AddNode => peers.push(peer),
        ConfChange::RemoveNode => peers.remove(position_of(peers, peer)),
    }
}

/// The state after a replica change.
pub open spec fn after_change_peer(s: LocalStateView, change: ConfChange, peer: Peer) -> LocalStateView {
    LocalStateView {
        region: RegionView {
            epoch: next_conf_ver(s.region.epoch),
            peers: changed_peers(s.region.peers, change, peer),
            ..s.region
        },
        ..s
    }
}

/// Why preparing a merge is refused, if it is. `index` is the log index of
/// the command itself.
pub open spec fn prepare_error(
    s: LocalStateView,
    epoch: RegionEpoch,
    index: u64,
    target: RegionView,
    min_index: u64,
) -> Option<MergeError> {
    if admission(s, CommandKind::PrepareMerge, epoch) is Some {
        admission(s, CommandKind::PrepareMerge, epoch)
    } else if !target.wf() || min_index > index {
        Some(MergeError::InvalidMerge)
    } else if target.id == s.region.id || !target.adjacent(s.region) {
        Some(MergeError::NotAdjacent)
    } else if !s.region.same_stores(target) {
        Some(MergeError::ReplicaSetMismatch)
    } else if s.region.epoch.version == u64::MAX || s.region.epoch.conf_ver == u64::MAX {
        Some(MergeError::EpochExhausted)
    } else {
        None
    }
}

/// The state of the source once a merge is prepared: both counters of the
/// epoch go up by one and the merge record is kept.
pub open spec fn after_prepare(
    s: LocalStateView,
    index: u64,
    target: RegionView,
    min_index: u64,
) -> LocalStateView {
    LocalStateView {
        state: PeerState::Merging,
        region: RegionView { epoch: next_conf_ver(next_version(s.region.epoch)), ..s.region },
        merge_state: Some(MergeStateView { target, commit: index, min_index }),
    }
}

/// Why rolling a merge back is refused, if it is.
pub open spec fn rollback_error(s: LocalStateView, epoch: RegionEpoch, version: u64) -> Option<
    MergeError,
> {
    if admission(s, CommandKind::RollbackMerge, epoch) is Some {
        admission(s, CommandKind::RollbackMerge, epoch)
    } else if version != s.region.epoch.version {
        Some(MergeError::EpochMismatch)
    } else if s.region.epoch.version == u64::MAX {
        Some(MergeError::EpochExhausted)
    } else {
        None
    }
}

/// The state of the source once its merge is rolled back.
pub open spec fn after_rollback(s: LocalStateView) -> LocalStateView {
    LocalStateView {
        state: PeerState::Normal,
        region: RegionView { epoch: next_version(s.region.epoch), ..s.region },
        merge_state: None,
    }
}

/// The state after a rollback was handed to the replica: rolled back where
/// the rollback is accepted, untouched where it is not.
pub open spec fn rolled_back(s: LocalStateView, epoch: RegionEpoch, version: u64) -> LocalStateView {
    if rollback_error(s, epoch, version) is None {
        after_rollback(s)
    } else {
        s
    }
}

/// Why the target refuses to absorb `source`, if it does.
pub open spec fn commit_error(t: LocalStateView, epoch: RegionEpoch, source: LocalStateView) -> Option<
    MergeError,
> {
    if admission(t, CommandKind::CommitMerge, epoch) is Some {
        admission(t, CommandKind::CommitMerge, epoch)
    } else if !source.wf() || source.state != PeerState::Merging {
        Some(MergeError::InvalidMerge)
    } else if source.merge_state->Some_0.target.id != t.region.id || !source.region.adjacent(
        t.region,
    ) {
        Some(MergeError::NotAdjacent)
    } else if source.merge_state->Some_0.target.epoch != t.region.epoch {
        Some(MergeError::EpochMismatch)
    } else if !source.region.same_stores(t.region) {
        Some(MergeError::ReplicaSetMismatch)
    } else if t.region.epoch.version == u64::MAX || source.region.epoch.version == u64::MAX {
        Some(MergeError::EpochExhausted)
    } else {
        None
    }
}

/// The larger of two versions.
pub open spec fn later_version(a: u64, b: u64) -> u64 {
    if a >= b {
        a
    } else {
        b
    }
}

/// The target after it absorbed `source`: its range reaches over the
/// source's, and its version is one more than the larger of the two.
pub open spec fn absorb(t: RegionView, source: RegionView) -> RegionView {
    let epoch = RegionEpoch {
        version: (later_version(t.epoch.version, source.epoch.version) + 1) as u64,
        conf_ver: t.epoch.conf_ver,
    };
    if source.precedes(t) {
        RegionView { start_key: source.start_key, epoch, ..t }
    } else {
        RegionView { end_key: source.end_key, epoch, ..t }
    }
}

/// The state of the target once the merge is committed.
pub open spec fn after_commit(t: LocalStateView, source: RegionView) -> LocalStateView {
    LocalStateView { region: absorb(t.region, source), ..t }
}

/// The state of a source replica once the merge is committed.
pub open spec fn retired(s: LocalStateView) -> LocalStateView {
    LocalStateView { state: PeerState::Tombstone, merge_state: None, ..s }
}

/// Whether no id occurs twice.
pub fn has_distinct_ids(ids: &[u64]) -> (r: bool)
    ensures
        r == distinct_ids(ids@),
{
    let mut i: usize = 0;
    while i < ids.len()
        invariant
            0 <= i <= ids@.len(),
            forall|a: int, b: int| 0 <= a < b < i ==> ids@[a] != ids@[b],
        decreases ids@.len() - i,
    {
        let mut j: usize = 0;
        while j < i
            invariant
                0 <= j <= i < ids@.len(),
                forall|a: int| 0 <= a < j ==> ids@[a] != ids@[i as int],
            decreases i - j,
        {
            if ids[j] == ids[i] {
                return false;
            }
            j += 1;
        }
        i += 1;
    }
    true
}

impl RegionEpoch {
    /// Whether a command proposed at epoch `given` may still be applied at
    /// this epoch.
    pub fn matches(&self, given: &RegionEpoch) -> (r: bool)
        ensures
            r == epoch_matches(*self, *given),
    {
        given.version == self.version && given.conf_ver == self.conf_ver
    }
}

/// Splitting a well-formed region leaves two well-formed regions.
pub proof fn lemma_split_keeps_wf(
    s: LocalStateView,
    epoch: RegionEpoch,
    key: Seq<u8>,
    new_region_id: u64,
    new_peer_ids: Seq<u64>,
)
    requires
        s.wf(),
        split_error(s, epoch, key, new_region_id, new_peer_ids) is None,
    ensures
        split_left(s, key).wf(),
        split_right(s, key, new_region_id, new_peer_ids).wf(),
{
    let right = split_right(s, key, new_region_id, new_peer_ids).region;
    assert forall|i: int, j: int| 0 <= i < j < right.peers.len() implies {
        &&& (#[trigger] right.peers[i]).id != (#[trigger] right.peers[j]).id
        &&& right.peers[i].store_id != right.peers[j].store_id
    } by {
        assert(s.region.peers[i].store_id != s.region.peers[j].store_id);
    }
}

/// A well-formed target that absorbs a well-formed adjacent source stays
/// well formed.
pub proof fn lemma_absorb_keeps_wf(t: RegionView, source: RegionView)
    requires
        t.wf(),
        source.wf(),
        source.adjacent(t),
    ensures
        absorb(t, source).wf(),
{
    if source.precedes(t) {
        if t.end_key.len() != 0 {
            lemma_lt_transitive(source.start_key, t.start_key, t.end_key);
        }
    } else {
        if source.end_key.len() != 0 {
            lemma_lt_transitive(t.start_key, source.start_key, source.end_key);
        }
    }
}

impl RegionLocalState {
    /// Why this replica turns down a command of `kind` proposed at `epoch`,
    /// if it does.
    pub fn check_admission(&self, kind: CommandKind, epoch: &RegionEpoch) -> (r: Option<MergeError>)
        ensures
            r == admission(self@, kind, *epoch),
    {
        if self.state == PeerState::Tombstone {
            Some(MergeError::RegionNotFound)
        } else if self.state == PeerState::Applying {
            Some(MergeError::SnapshotInProgress)
        } else if !self.region.epoch.matches(epoch) {
            Some(MergeError::EpochMismatch)
        } else if self.state == PeerState::Merging && kind.reshapes() {
            Some(MergeError::MergeInProgress)
        } else if self.state == PeerState::Normal && kind == CommandKind::RollbackMerge {
            Some(MergeError::NotMerging)
        } else {
            None
        }
    }

    /// Cuts the region at `split_key`. The part before the key stays with
    /// this replica; the part from the key on is returned as a new region.
    /// Both get the old version plus one.
    pub fn apply_split(
        &mut self,
        epoch: &RegionEpoch,
        split_key: &[u8],
        new_region_id: u64,
        new_peer_ids: &[u64],
    ) -> (r: Result<RegionLocalState, MergeError>)
        ensures
            match split_error(old(self)@, *epoch, split_key@, new_region_id, new_peer_ids@) {
                Some(e) => r == Err::<RegionLocalState, MergeError>(e) && final(self)@ == old(self)@,
                None => r is Ok && final(self)@ == split_left(old(self)@, split_key@)
                    && r->Ok_0@ == split_right(
                    old(self)@,
                    split_key@,
                    new_region_id,
                    new_peer_ids@,
                ),
            },
            old(self)@.wf() && r is Ok ==> final(self)@.wf() && r->Ok_0@.wf(),
    {
        if let Some(e) = self.check_admission(CommandKind::Split, epoch) {
            return Err(e);
        }
        let inside = key_less(self.region.start_key.as_slice(), split_key) && (
        self.region.end_key.len() == 0 || key_less(split_key, self.region.end_key.as_slice()));
        if !inside {
            return Err(MergeError::KeyNotInRegion);
        }
        if new_region_id == self.region.id || new_peer_ids.len() != self.region.peers.len()
            || !has_distinct_ids(new_peer_ids) {
            return Err(MergeError::InvalidSplit);
        }
        if self.region.epoch.version == u64::MAX {
            return Err(MergeError::EpochExhausted);
        }
        let ghost before = self@;
        let mut peers: Vec<Peer> = Vec::new();
        let mut i: usize = 0;
        while i < new_peer_ids.len()
            invariant
                before == self@,
                before == old(self)@,
                new_peer_ids@.len() == before.region.peers.len(),
                0 <= i <= new_peer_ids@.len(),
                peers@.len() == i,
                forall|j: int|
                    0 <= j < i ==> peers@[j] == split_peers(
                        before.region.peers,
                        new_peer_ids@,
                        new_region_id,
                    )[j],
            decreases new_peer_ids@.len() - i,
        {
            peers.push(
                Peer {
                    id: new_peer_ids[i],
                    store_id: self.region.peers[i].store_id,
                    region_id: new_region_id,
                },
            );
            i += 1;
        }
        assert(peers@ =~= split_peers(before.region.peers, new_peer_ids@, new_region_id));
        let epoch_after = RegionEpoch {
            version: self.region.epoch.version + 1,
            conf_ver: self.region.epoch.conf_ver,
        };
        let mut end_key = key_copy(split_key);
        std::mem::swap(&mut self.region.end_key, &mut end_key);
        self.region.epoch = epoch_after;
        let right = RegionLocalState {
            state: PeerState::Normal,
            region: Region {
                id: new_region_id,
                start_key: key_copy(split_key),
                end_key,
                epoch: epoch_after,
                peers,
            },
            merge_state: None,
        };
        proof {
            if before.wf() {
                lemma_split_keeps_wf(before, *epoch, split_key@, new_region_id, new_peer_ids@);
            }
        }
        Ok(right)
    }

    /// Adds or removes one replica and raises the replica-set version by
    /// one.
    pub fn apply_change_peer(&mut self, epoch: &RegionEpoch, change: ConfChange, peer: Peer) -> (r:
        Result<(), MergeError>)
        ensures
            match change_peer_error(old(self)@, *epoch, change, peer) {
                Some(e) => r == Err::<(), MergeError>(e) && final(self)@ == old(self)@,
                None => r is Ok && final(self)@ == after_change_peer(old(self)@, change, peer),
            },
            old(self)@.wf() && r is Ok ==> final(self)@.wf(),
    {
        if let Some(e) = self.check_admission(CommandKind::ChangePeer, epoch) {
            return Err(e);
        }
        let ghost before = self@;
        let mut at: usize = 0;
        match change {
            ConfChange::AddNode => {
                if peer.region_id != self.region.id {
                    return Err(MergeError::InvalidPeer);
                }
                let mut i: usize = 0;
                while i < self.region.peers.len()
                    invariant
                        before == self@,
                        before == old(self)@,
                        change == ConfChange::AddNode,
                        admission(before, CommandKind::ChangePeer, *epoch) is None,
                        0 <= i <= before.region.peers.len(),
                        forall|j: int|
                            0 <= j < i ==> !((#[trigger] before.region.peers[j]).id == peer.id
                                || before.region.peers[j].store_id == peer.store_id),
                    decreases before.region.peers.len() - i,
                {
                    if self.region.peers[i].id == peer.id || self.region.peers[i].store_id
                        == peer.store_id {
                        assert(before.region.peers[i as int].id == peer.id
                            || before.region.peers[i as int].store_id == peer.store_id);
                        return Err(MergeError::InvalidPeer);
                    }
                    i += 1;
                }
            },
            ConfChange::RemoveNode => {
                while at < self.region.peers.len()
                    invariant
                        before == self@,
                        before == old(self)@,
                        0 <= at <= before.region.peers.len(),
                        forall|j: int| 0 <= j < at ==> before.region.peers[j] != peer,
                    ensures
                        at < before.region.peers.len() ==> first_at(
                            before.region.peers,
                            peer,
                            at as int,
                        ),
                    decreases before.region.peers.len() - at,
                {
                    if self.region.peers[at] == peer {
                        break ;
                    }
                    at += 1;
                }
                if at == self.region.peers.len() {
                    return Err(MergeError::InvalidPeer);
                }
                assert(before.region.peers.contains(peer));
            },
        }
        if self.region.epoch.conf_ver == u64::MAX {
            return Err(MergeError::EpochExhausted);
        }
        match change {
            ConfChange::AddNode => {
                self.region.peers.push(peer);
            },
            ConfChange::RemoveNode => {
                proof {
                    let chosen = position_of(before.region.peers, peer);
                    assert(first_at(before.region.peers, peer, chosen));
                    assert(chosen == at);
                }
                self.region.peers.remove(at);
            },
        }
        self.region.epoch.conf_ver = self.region.epoch.conf_ver + 1;
        proof {
            assert(self@.region.peers == changed_peers(before.region.peers, change, peer));
            if before.wf() {
                lemma_change_peer_keeps_wf(before, *epoch, change, peer);
            }
        }
        Ok(())
    }
}

/// A replica change on a well-formed region leaves it well formed.
pub proof fn lemma_change_peer_keeps_wf(
    s: LocalStateView,
    epoch: RegionEpoch,
    change: ConfChange,
    peer: Peer,
)
    requires
        s.wf(),
        change_peer_error(s, epoch, change, peer) is None,
    ensures
        after_change_peer(s, change, peer).wf(),
{
    let after = after_change_peer(s, change, peer).region;
    match change {
        ConfChange::AddNode => {
            assert forall|i: int, j: int| 0 <= i < j < after.peers.len() implies {
                &&& (#[trigger] after.peers[i]).id != (#[trigger] after.peers[j]).id
                &&& after.peers[i].store_id != after.peers[j].store_id
            } by {
                if j < s.region.peers.len() {
                    assert(s.region.peers[i].id != s.region.peers[j].id);
                } else {
                    assert(!(s.region.peers[i].id == peer.id || s.region.peers[i].store_id
                        == peer.store_id));
                }
            }
        },
        ConfChange::RemoveNode => {
            let at = position_of(s.region.peers, peer);
            let k = choose|k: int| 0 <= k < s.region.peers.len() && s.region.peers[k] == peer;
            lemma_first_exists(s.region.peers, peer, k);
            assert(first_at(s.region.peers, peer, at));
            assert forall|i: int| 0 <= i < after.peers.len() implies (
            #[trigger] after.peers[i]).region_id == after.id by {
                if i < at {
                    assert(after.peers[i] == s.region.peers[i]);
                } else {
                    assert(after.peers[i] == s.region.peers[i + 1]);
                }
            }
            assert forall|i: int, j: int| 0 <= i < j < after.peers.len() implies {
                &&& (#[trigger] after.peers[i]).id != (#[trigger] after.peers[j]).id
                &&& after.peers[i].store_id != after.peers[j].store_id
            } by {
                let a = if i < at {
                    i
                } else {
                    i + 1
                };
                let b = if j < at {
                    j
                } else {
                    j + 1
                };
                assert(after.peers[i] == s.region.peers[a]);
                assert(after.peers[j] == s.region.peers[b]);
                assert(s.region.peers[a].id != s.region.peers[b].id);
            }
        },
    }
}

/// Where a peer stands at `k`, it has a first position.
pub proof fn lemma_first_exists(peers: Seq<Peer>, peer: Peer, k: int)
    requires
        0 <= k < peers.len(),
        peers[k] == peer,
    ensures
        exists|i: int| first_at(peers, peer, i),
    decreases k,
{
    if exists|j: int| 0 <= j < k && peers[j] == peer {
        let j = choose|j: int| 0 <= j < k && peers[j] == peer;
        lemma_first_exists(peers, peer, j);
    } else {
        assert(first_at(peers, peer, k));
    }
}

/// Preparing a merge on a well-formed region leaves it well formed.
pub proof fn lemma_prepare_keeps_wf(
    s: LocalStateView,
    epoch: RegionEpoch,
    index: u64,
    target: RegionView,
    min_index: u64,
)
    requires
        s.wf(),
        prepare_error(s, epoch, index, target, min_index) is None,
    ensures
        after_prepare(s, index, target, min_index).wf(),
{
}

impl RegionLocalState {
    /// Why preparing a merge into `target` would be refused, if it would.
    pub fn check_prepare(
        &self,
        epoch: &RegionEpoch,
        index: u64,
        target: &Region,
        min_index: u64,
    ) -> (r: Option<MergeError>)
        ensures
            r == prepare_error(self@, *epoch, index, target@, min_index),
    {
        if let Some(e) = self.check_admission(CommandKind::PrepareMerge, epoch) {
            return Some(e);
        }
        if !target.is_well_formed() || min_index > index {
            return Some(MergeError::InvalidMerge);
        }
        if target.id == self.region.id || !target.is_adjacent(&self.region) {
            return Some(MergeError::NotAdjacent);
        }
        if !self.region.has_same_stores(target) {
            return Some(MergeError::ReplicaSetMismatch);
        }
        if self.region.epoch.version == u64::MAX || self.region.epoch.conf_ver == u64::MAX {
            return Some(MergeError::EpochExhausted);
        }
        None
    }

    /// Starts the merge of this region into `target`: the replica becomes
    /// `Merging`, keeps a record of the merge, and both counters of its
    /// epoch go up by one. `index` is the log index of the command.
    pub fn apply_prepare_merge(
        &mut self,
        epoch: &RegionEpoch,
        index: u64,
        target: &Region,
        min_index: u64,
    ) -> (r: Result<(), MergeError>)
        ensures
            match prepare_error(old(self)@, *epoch, index, target@, min_index) {
                Some(e) => r == Err::<(), MergeError>(e) && final(self)@ == old(self)@,
                None => r is Ok && final(self)@ == after_prepare(
                    old(self)@,
                    index,
                    target@,
                    min_index,
                ),
            },
            old(self)@.wf() && r is Ok ==> final(self)@.wf(),
    {
        if let Some(e) = self.check_prepare(epoch, index, target, min_index) {
            return Err(e);
        }
        proof {
            if self@.wf() {
                lemma_prepare_keeps_wf(self@, *epoch, index, target@, min_index);
            }
        }
        self.state = PeerState::Merging;
        self.region.epoch = RegionEpoch {
            version: self.region.epoch.version + 1,
            conf_ver: self.region.epoch.conf_ver + 1,
        };
        self.merge_state = Some(MergeState { target: target.clone(), commit: index, min_index });
        Ok(())
    }

    /// Gives up the merge that was prepared at epoch version `version`: the
    /// replica is `Normal` again, the merge record is dropped and the
    /// version goes up by one. On a region that is not merging at that
    /// version nothing changes.
    pub fn apply_rollback_merge(&mut self, epoch: &RegionEpoch, version: u64) -> (r: Result<
        (),
        MergeError,
    >)
        ensures
            match rollback_error(old(self)@, *epoch, version) {
                Some(e) => r == Err::<(), MergeError>(e) && final(self)@ == old(self)@,
                None => r is Ok && final(self)@ == after_rollback(old(self)@),
            },
            final(self)@ == rolled_back(old(self)@, *epoch, version),
            old(self)@.wf() && r is Ok ==> final(self)@.wf(),
    {
        if let Some(e) = self.check_admission(CommandKind::RollbackMerge, epoch) {
            return Err(e);
        }
        if version != self.region.epoch.version {
            return Err(MergeError::EpochMismatch);
        }
        if self.region.epoch.version == u64::MAX {
            return Err(MergeError::EpochExhausted);
        }
        self.state = PeerState::Normal;
        self.region.epoch.version = self.region.epoch.version + 1;
        self.merge_state = None;
        Ok(())
    }

    /// Why absorbing `source` would be refused, if it would.
    pub fn check_commit_merge(&self, epoch: &RegionEpoch, source: &RegionLocalState) -> (r: Option<
        MergeError,
    >)
        ensures
            r == commit_error(self@, *epoch, source@),
    {
        if let Some(e) = self.check_admission(CommandKind::CommitMerge, epoch) {
            return Some(e);
        }
        if !source.is_well_formed() || source.state != PeerState::Merging {
            return Some(MergeError::InvalidMerge);
        }
        match &source.merge_state {
            Some(m) => {
                if m.target.id != self.region.id || !source.region.is_adjacent(&self.region) {
                    return Some(MergeError::NotAdjacent);
                }
                if m.target.epoch != self.region.epoch {
                    return Some(MergeError::EpochMismatch);
                }
            },
            None => {
                return Some(MergeError::InvalidMerge);
            },
        }
        if !source.region.has_same_stores(&self.region) {
            return Some(MergeError::ReplicaSetMismatch);
        }
        if self.region.epoch.version == u64::MAX || source.region.epoch.version == u64::MAX {
            return Some(MergeError::EpochExhausted);
        }
        None
    }

    /// On the target: absorbs the range of `source`, the frozen state of the
    /// region that merges into this one. The version becomes one more than
    /// the larger of the two.
    pub fn apply_commit_merge(&mut self, epoch: &RegionEpoch, source: &RegionLocalState) -> (r:
        Result<(), MergeError>)
        ensures
            match commit_error(old(self)@, *epoch, source@) {
                Some(e) => r == Err::<(), MergeError>(e) && final(self)@ == old(self)@,
                None => r is Ok && final(self)@ == after_commit(old(self)@, source@.region),
            },
            old(self)@.wf() && r is Ok ==> final(self)@.wf(),
    {
        if let Some(e) = self.check_commit_merge(epoch, source) {
            return Err(e);
        }
        let source_epoch = source.region.epoch;
        proof {
            if self@.wf() {
                lemma_absorb_keeps_wf(self@.region, source@.region);
            }
        }
        let version = if self.region.epoch.version >= source_epoch.version {
            self.region.epoch.version + 1
        } else {
            source_epoch.version + 1
        };
        if source.region.precedes(&self.region) {
            self.region.start_key = key_copy(source.region.start_key.as_slice());
        } else {
            self.region.end_key = key_copy(source.region.end_key.as_slice());
        }
        self.region.epoch.version = version;
        Ok(())
    }

    /// On a source replica, once its merge is committed: the replica is
    /// retired and its merge record dropped. Anything but a merging replica
    /// is left as it is.
    pub fn retire(&mut self) -> (r: bool)
        ensures
            r == (old(self)@.state == PeerState::Merging),
            r ==> final(self)@ == retired(old(self)@),
            !r ==> final(self)@ == old(self)@,
            old(self)@.wf() ==> final(self)@.wf(),
    {
        if self.state != PeerState::Merging {
            return false;
        }
        self.state = PeerState::Tombstone;
        self.merge_state = None;
        true
    }
}

/// A split hands every key of the region to exactly one of the two halves,
/// and no other key to either.
pub proof fn lemma_split_partitions(r: RegionView, split_key: Seq<u8>, key: Seq<u8>)
    requires
        strictly_inside(r, split_key),
    ensures
        r.contains(key) <==> (RegionView { end_key: split_key, ..r }).contains(key) || (RegionView {
            start_key: split_key,
            ..r
        }).contains(key),
        !((RegionView { end_key: split_key, ..r }).contains(key) && (RegionView {
            start_key: split_key,
            ..r
        }).contains(key)),
{
    lemma_le_iff_not_gt(split_key, key);
    if key_lt(key, split_key) {
        if r.end_key.len() != 0 {
            lemma_lt_transitive(key, split_key, r.end_key);
        }
    } else {
        lemma_lt_le_transitive(r.start_key, split_key, key);
    }
}

/// The range of a target that absorbed an adjacent source holds exactly the
/// keys of the two.
pub proof fn lemma_absorb_unites(t: RegionView, source: RegionView, key: Seq<u8>)
    requires
        t.wf(),
        source.wf(),
        source.adjacent(t),
    ensures
        absorb(t, source).contains(key) <==> t.contains(key) || source.contains(key),
{
    if source.precedes(t) {
        lemma_le_iff_not_gt(t.start_key, key);
        if key_lt(key, t.start_key) {
            if t.end_key.len() != 0 {
                lemma_lt_transitive(key, t.start_key, t.end_key);
            }
        } else {
            lemma_lt_le_transitive(source.start_key, t.start_key, key);
        }
    } else {
        lemma_le_iff_not_gt(source.start_key, key);
        if key_lt(key, source.start_key) {
            if source.end_key.len() != 0 {
                lemma_lt_transitive(key, source.start_key, source.end_key);
            }
        } else {
            lemma_lt_le_transitive(t.start_key, source.start_key, key);
        }
    }
}

} // verus!
