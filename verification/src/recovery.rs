//! Bringing a replica back after a restart from what it persisted. A merge
//! that was under way is still under way afterwards: it is neither dropped
//! nor taken as done.

use crate::command::MergeError;
use crate::replica::{Replica, ReplicaView};
use crate::state::{LocalStateView, PeerState, RegionLocalState};
use vstd::prelude::*;

verus! {

/// What a replica does first after a restart.
#[derive(Clone, Copy, Debug, PartialEq, Eq, Structural)]
pub enum Recovery {
    /// Serve as before.
    Serve,
    /// A merge was under way: find out what became of the target, then
    /// commit or roll back.
    ResumeMerge,
    /// A snapshot was being taken in: ask for it again.
    AwaitSnapshot,
    /// The replica is retired: nothing to run, data to be removed.
    Retired,
}

/// The replica that a restart makes of what was persisted.
pub open spec fn reloaded(
    store_id: u64,
    local: LocalStateView,
    applied_index: u64,
    truncated_index: u64,
) -> ReplicaView {
    ReplicaView { store_id, local, applied_index, truncated_index, merge_ticks: 0 }
}

/// What a replica in state `state` does first after a restart.
pub open spec fn recovery_for(state: PeerState) -> Recovery {
    match state {
        PeerState::Normal => Recovery::Serve,
        PeerState::Merging => Recovery::ResumeMerge,
        PeerState::Applying => Recovery::AwaitSnapshot,
        PeerState::Tombstone => Recovery::Retired,
    }
}

impl Replica {
    /// Rebuilds a replica from what it persisted. State that the protocol
    /// cannot have produced is refused, and the replica does not serve.
    /// Otherwise the replica holds exactly what was persisted, its merge
    /// record included, and its merge timer starts anew.
    pub fn restart(
        store_id: u64,
        local: RegionLocalState,
        applied_index: u64,
        truncated_index: u64,
    ) -> (r: Result<(Replica, Recovery), MergeError>)
        ensures
            match r {
                Ok((replica, recovery)) => {
                    &&& replica@ == reloaded(store_id, local@, applied_index, truncated_index)
                    &&& replica@.wf()
                    &&& recovery == recovery_for(local@.state)
                },
                Err(e) => e == MergeError::CorruptState && !reloaded(
                    store_id,
                    local@,
                    applied_index,
                    truncated_index,
                ).wf(),
            },
    {
        let replica = Replica { store_id, local, applied_index, truncated_index, merge_ticks: 0 };
        if !replica.is_well_formed() {
            return Err(MergeError::CorruptState);
        }
        let recovery = match replica.local.state {
            PeerState::Normal => Recovery::Serve,
            PeerState::Merging => Recovery::ResumeMerge,
            PeerState::Applying => Recovery::AwaitSnapshot,
            PeerState::Tombstone => Recovery::Retired,
        };
        Ok((replica, recovery))
    }
}

} // verus!
