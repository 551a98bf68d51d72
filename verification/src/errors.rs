//! The error kinds the lifecycle operations surface.  Every kind but
//! `StorageUnavailable` is terminal for its request; a caller may retry
//! only on `StorageUnavailable`.

use vstd::prelude::*;

verus! {

/// The error kinds a lifecycle operation can surface.
#[derive(Clone, Copy, Debug, PartialEq, Eq, Structural)]
pub enum ShardError {
    /// The principal's relations already exist.
    DuplicateShard,
    /// The principal has no registered (or no live) relations.
    UnknownShard,
    /// The relation is already a parent of the union.
    DuplicateParent,
    /// The presented blob's keyed hash differs from the stored one.
    IntegrityMismatch,
    /// The engine rejected or could not apply a topology change.
    MigrationFailure,
    /// The storage engine is temporarily unreachable; retry.
    StorageUnavailable,
    /// The blob did not deserialize into a shard's relations.
    BlobCorrupt,
}

impl ShardError {
    /// Whether a caller should retry the same logical operation.
    pub fn is_retryable(&self) -> (b: bool)
        ensures
            b == (*self == ShardError::StorageUnavailable),
    {
        match self {
            ShardError::StorageUnavailable => true,
            _ => false,
        }
    }

    /// A short stable name for the kind.
    pub fn kind_name(&self) -> &'static str {
        match self {
            ShardError::DuplicateShard => "duplicate shard",
            ShardError::UnknownShard => "unknown shard",
            ShardError::DuplicateParent => "duplicate parent",
            ShardError::IntegrityMismatch => "integrity mismatch",
            ShardError::MigrationFailure => "migration failure",
            ShardError::StorageUnavailable => "storage unavailable",
            ShardError::BlobCorrupt => "corrupt blob",
        }
    }
}

} // verus!
