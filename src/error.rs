use vstd::prelude::*;

use crate::segment::SnapshotSegment;

verus! {

/// Failures surfaced by the snapshot store.
#[derive(Clone, Copy, Debug, PartialEq, Eq, Structural)]
pub enum ProviderError {
    /// The block is outside the snapshotted range of the segment.
    MissingSnapshotBlock(SnapshotSegment, u64),
    /// The transaction is outside the snapshotted range of the segment.
    MissingSnapshotTx(SnapshotSegment, u64),
    /// A file name does not name a jar of the segment.
    MissingSnapshotPath(SnapshotSegment),
    /// Snapshots do not hold the data the operation needs.
    UnsupportedProvider,
    /// A transaction's signer could not be recovered.
    SenderRecoveryError,
    /// No writer is open for the segment.
    MissingWriter(SnapshotSegment),
    /// A row was appended out of order: the segment expected the first number
    /// and was given the second.
    UnexpectedAppend(SnapshotSegment, u64, u64),
    /// Snapshot targets do not start right after the highest snapshots.
    NonContiguousTargets,
}

} // verus!
