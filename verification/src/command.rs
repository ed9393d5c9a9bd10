//! What travels through a region's log, and how applying it can fail.

use crate::region::{Peer, Region, RegionEpoch};
use crate::state::RegionLocalState;
use vstd::prelude::*;

verus! {

/// Whether a replica joins or leaves.
#[derive(Clone, Copy, Debug, PartialEq, Eq, Structural)]
pub enum ConfChange {
    AddNode,
    RemoveNode,
}

/// The commands that change what a region is.
#[derive(Debug)]
pub enum AdminCommand {
    /// Cut the region at `split_key`; the part from the key on becomes the
    /// region `new_region_id`, with one new peer per existing peer.
    Split { split_key: Vec<u8>, new_region_id: u64, new_peer_ids: Vec<u64> },
    /// Add or remove one replica.
    ChangePeer { change: ConfChange, peer: Peer },
    /// Start merging this region into `target`. `min_index` is the smallest
    /// log index known to be on every replica.
    PrepareMerge { target: Region, min_index: u64 },
    /// On the target's log: absorb `source`, given as its replicas froze it.
    /// `entries` are the source's log entries that a lagging replica of the
    /// source may still lack.
    CommitMerge { source: RegionLocalState, entries: Vec<LogEntry> },
    /// Give up the merge that was prepared at epoch version `version`.
    RollbackMerge { version: u64 },
    /// Drop the log up to `index`.
    CompactLog { index: u64 },
}

/// A command of a region's log.
#[derive(Debug)]
pub enum Command {
    /// A plain write of one key.
    Write { key: Vec<u8>, value: Vec<u8> },
    /// An administrative command.
    Admin(AdminCommand),
}

/// One committed entry of a region's log: its place, the epoch at which it
/// was proposed and what it asks for.
#[derive(Debug)]
pub struct LogEntry {
    pub index: u64,
    pub epoch: RegionEpoch,
    pub cmd: Command,
}

/// What a command is, without its payload.
#[derive(Clone, Copy, Debug, PartialEq, Eq, Structural)]
pub enum CommandKind {
    Write,
    Split,
    ChangePeer,
    PrepareMerge,
    CommitMerge,
    RollbackMerge,
    CompactLog,
}

/// Why a proposal is refused or a committed entry has no effect.
#[derive(Clone, Copy, Debug, PartialEq, Eq, Structural)]
pub enum MergeError {
    /// The command was made for another epoch of the region.
    EpochMismatch,
    /// The region has no live replica here.
    RegionNotFound,
    /// The replica is receiving a snapshot.
    SnapshotInProgress,
    /// The region is the source of a merge under way.
    MergeInProgress,
    /// There is no merge to roll back.
    NotMerging,
    /// The key is outside the region, or on its edge where a split needs it
    /// inside.
    KeyNotInRegion,
    /// The ids given for a split cannot make a new region.
    InvalidSplit,
    /// The replica to add is there already, or the one to remove is not.
    InvalidPeer,
    /// The descriptor or the indices that a merge command carries make no
    /// sense.
    InvalidMerge,
    /// Source and target share no boundary.
    NotAdjacent,
    /// Source and target do not have their replicas on the same stores.
    ReplicaSetMismatch,
    /// Some replica of the source is too far behind.
    LogGapTooLarge,
    /// The log that lagging replicas would need is compacted away.
    LogCompacted,
    /// The entries that lagging replicas lack hold administrative commands.
    PendingAdminCommand,
    /// An epoch counter cannot be raised any further.
    EpochExhausted,
    /// The entry is not the one after the last applied.
    OutOfOrder,
    /// A replica of the source on this store can neither be brought up to
    /// the merge from the entries given, nor has it got there by itself.
    SourceNotReady,
    /// The persisted state is not one that the protocol can produce.
    CorruptState,
    /// The snapshot is older than what the replica holds.
    StaleSnapshot,
    /// The range asked for runs into a live region that is not part of the
    /// operation.
    RangeOverlap,
    /// The store holds a replica of that region already.
    RegionExists,
}

impl AdminCommand {
    /// The kind of the command.
    pub open spec fn spec_kind(&self) -> CommandKind {
        match self {
            AdminCommand::Split { .. } => CommandKind::Split,
            AdminCommand::ChangePeer { .. } => CommandKind::ChangePeer,
            AdminCommand::PrepareMerge { .. } => CommandKind::PrepareMerge,
            AdminCommand::CommitMerge { .. } => CommandKind::CommitMerge,
            AdminCommand::RollbackMerge { .. } => CommandKind::RollbackMerge,
            AdminCommand::CompactLog { .. } => CommandKind::CompactLog,
        }
    }

    /// The kind of the command.
    pub fn kind(&self) -> (r: CommandKind)
        ensures
            r == self.spec_kind(),
    {
        match self {
            AdminCommand::Split { .. } => CommandKind::Split,
            AdminCommand::ChangePeer { .. } => CommandKind::ChangePeer,
            AdminCommand::PrepareMerge { .. } => CommandKind::PrepareMerge,
            AdminCommand::CommitMerge { .. } => CommandKind::CommitMerge,
            AdminCommand::RollbackMerge { .. } => CommandKind::RollbackMerge,
            AdminCommand::CompactLog { .. } => CommandKind::CompactLog,
        }
    }
}

impl Command {
    /// The kind of the command.
    pub open spec fn spec_kind(&self) -> CommandKind {
        match self {
            Command::Write { .. } => CommandKind::Write,
            Command::Admin(admin) => admin.spec_kind(),
        }
    }

    /// The kind of the command.
    pub fn kind(&self) -> (r: CommandKind)
        ensures
            r == self.spec_kind(),
    {
        match self {
            Command::Write { .. } => CommandKind::Write,
            Command::Admin(admin) => admin.kind(),
        }
    }
}

impl CommandKind {
    /// Whether the command changes the range or the replicas of the region
    /// it is applied to, or starts a merge: what a merging region refuses.
    pub open spec fn spec_reshapes(self) -> bool {
        self == CommandKind::Split || self == CommandKind::ChangePeer || self
            == CommandKind::PrepareMerge || self == CommandKind::CommitMerge
    }

    /// Whether the command changes the range or the replicas of the region
    /// it is applied to, or starts a merge.
    pub fn reshapes(&self) -> (r: bool)
        ensures
            r == self.spec_reshapes(),
    {
        match self {
            CommandKind::Split
            | CommandKind::ChangePeer
            | CommandKind::PrepareMerge
            | CommandKind::CommitMerge => true,
            _ => false,
        }
    }
}

} // verus!
