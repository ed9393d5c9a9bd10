//! What each replica persists about its region: the descriptor, the state of
//! the replica and, while a merge is under way, what was agreed at its start.

use crate::region::{Region, RegionView};
use vstd::prelude::*;

verus! {

/// The state of one replica.
#[derive(Clone, Copy, Debug, PartialEq, Eq, Structural)]
pub enum PeerState {
    /// Serves reads and writes and takes administrative proposals.
    Normal,
    /// Source of a merge that was prepared and is neither committed nor
    /// rolled back.
    Merging,
    /// Receiving a snapshot; the range is not yet consistent.
    Applying,
    /// Retired for good.
    Tombstone,
}

/// What a source replica records when a merge is prepared.
#[derive(Debug)]
pub struct MergeState {
    /// The region that is to absorb this one, as it was at prepare.
    pub target: Region,
    /// The log index at which the merge was prepared.
    pub commit: u64,
    /// The smallest log index known to be on every replica of the source.
    pub min_index: u64,
}

/// What a replica persists about its region.
#[derive(Debug)]
pub struct RegionLocalState {
    pub state: PeerState,
    pub region: Region,
    pub merge_state: Option<MergeState>,
}

/// A merge record as plain values.
pub ghost struct MergeStateView {
    pub target: RegionView,
    pub commit: u64,
    pub min_index: u64,
}

/// A persisted replica state as plain values.
pub ghost struct LocalStateView {
    pub state: PeerState,
    pub region: RegionView,
    pub merge_state: Option<MergeStateView>,
}

impl View for MergeState {
    type V = MergeStateView;

    open spec fn view(&self) -> MergeStateView {
        MergeStateView { target: self.target@, commit: self.commit, min_index: self.min_index }
    }
}

/// The view of an optional merge record.
pub open spec fn merge_view(m: Option<MergeState>) -> Option<MergeStateView> {
    match m {
        Some(m) => Some(m@),
        None => None,
    }
}

impl View for RegionLocalState {
    type V = LocalStateView;

    open spec fn view(&self) -> LocalStateView {
        LocalStateView {
            state: self.state,
            region: self.region@,
            merge_state: merge_view(self.merge_state),
        }
    }
}

impl MergeStateView {
    /// The record fits the source region `source`: the target is another,
    /// well-formed region that borders the source, and the index every
    /// replica holds is not past the prepare index.
    pub open spec fn fits(self, source: RegionView) -> bool {
        &&& self.target.wf()
        &&& self.target.id != source.id
        &&& self.target.adjacent(source)
        &&& self.min_index <= self.commit
    }
}

impl LocalStateView {
    /// The descriptor is well formed, a merging replica holds a merge
    /// record, and only a merging replica holds one, or one that was merging
    /// when it began to receive a snapshot.
    pub open spec fn wf(self) -> bool {
        &&& self.region.wf()
        &&& self.state == PeerState::Merging ==> self.merge_state is Some
        &&& self.merge_state is Some ==> self.state == PeerState::Merging || self.state
            == PeerState::Applying
        &&& self.merge_state matches Some(m) ==> m.fits(self.region)
    }

    /// The replica stands for its region: every state but `Tombstone`.
    pub open spec fn live(self) -> bool {
        self.state != PeerState::Tombstone
    }

    /// The replica answers reads and takes writes.
    pub open spec fn serving(self) -> bool {
        self.state == PeerState::Normal || self.state == PeerState::Merging
    }
}

impl Clone for MergeState {
    fn clone(&self) -> (r: Self)
        ensures
            r@ == self@,
    {
        MergeState { target: self.target.clone(), commit: self.commit, min_index: self.min_index }
    }
}

impl Clone for RegionLocalState {
    fn clone(&self) -> (r: Self)
        ensures
            r@ == self@,
    {
        let merge_state = match &self.merge_state {
            Some(m) => Some(m.clone()),
            None => None,
        };
        RegionLocalState { state: self.state, region: self.region.clone(), merge_state }
    }
}

impl MergeState {
    /// Whether the record fits the source region `source`.
    pub fn fits(&self, source: &Region) -> (r: bool)
        ensures
            r == self@.fits(source@),
    {
        self.target.is_well_formed() && self.target.id != source.id && self.target.is_adjacent(
            source,
        ) && self.min_index <= self.commit
    }
}

impl RegionLocalState {
    /// The state of a fresh replica of `region`.
    pub fn new(region: Region) -> (r: Self)
        ensures
            r@ == (LocalStateView {
                state: PeerState::Normal,
                region: region@,
                merge_state: None,
            }),
    {
        RegionLocalState { state: PeerState::Normal, region, merge_state: None }
    }

    /// Whether the persisted state is one that the merge protocol can
    /// produce.
    pub fn is_well_formed(&self) -> (r: bool)
        ensures
            r == self@.wf(),
    {
        if !self.region.is_well_formed() {
            return false;
        }
        match &self.merge_state {
            Some(m) => (self.state == PeerState::Merging || self.state == PeerState::Applying)
                && m.fits(&self.region),
            None => self.state != PeerState::Merging,
        }
    }

    /// Whether the replica stands for its region.
    pub fn is_live(&self) -> (r: bool)
        ensures
            r == self@.live(),
    {
        self.state != PeerState::Tombstone
    }

    /// Whether the replica answers reads and takes writes.
    pub fn is_serving(&self) -> (r: bool)
        ensures
            r == self@.serving(),
    {
        self.state == PeerState::Normal || self.state == PeerState::Merging
    }
}

} // verus!
