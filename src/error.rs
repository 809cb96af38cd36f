use vstd::prelude::*;
use crate::id::TimelineId;
use crate::key::Key;
use crate::lsn::Lsn;
use crate::state::TimelineState;

verus! {

/// Why a branch start LSN was refused.
#[derive(Clone, Copy, Debug, PartialEq, Eq, Structural)]
pub enum InvalidLsnReason {
    /// Below the source's latest GC cutoff: the data may already be gone.
    AlreadyGced,
    /// Below the cutoff that the next GC pass has planned.
    WouldBeGced,
    /// Below the point at which the source itself was branched off.
    BeforeAncestorLsn,
}

/// What went wrong with an entry of the timelines directory.
#[derive(Clone, Copy, Debug, PartialEq, Eq, Structural)]
pub enum FsErrorKind {
    NotFound,
    AlreadyExists,
}

/// Errors of the tenant layer.
#[derive(Clone, Debug, PartialEq, Eq)]
pub enum TenantError {
    /// The operation requires an `Active` tenant.
    TenantInactive,
    /// The operation was attempted on a `Broken` tenant.
    TenantBroken,
    TimelineNotFound { timeline_id: TimelineId },
    TimelineNotActive { timeline_id: TimelineId, state: TimelineState },
    /// The timeline is already in the tenant's map.
    TimelineAlreadyExists { timeline_id: TimelineId },
    /// The timeline's directory or uninit mark is already on disk.
    TimelineDirExists { timeline_id: TimelineId },
    /// Some timeline has the one to delete as its ancestor.
    HasChildren { timeline_id: TimelineId },
    InvalidStartLsn { reason: InvalidLsnReason, lsn: Lsn, cutoff: Lsn },
    /// Timelines whose ancestors are missing, with those ancestors.
    OrphanTimelines { missing: Vec<TimelineId>, orphans: Vec<TimelineId> },
    MetadataChecksumMismatch,
    MetadataParse,
    UnknownConfigKey { key: String },
    ConfigParse,
    InitdbFailed { stderr: String },
    Io { timeline_id: TimelineId, kind: FsErrorKind },
    /// A write at an LSN that is not past the timeline's last record.
    InvalidWriteLsn { lsn: Lsn, last_record_lsn: Lsn },
    /// No version of the key at or below the LSN, on the timeline or its ancestors.
    KeyNotFound { key: Key, lsn: Lsn },
    Shutdown,
}

} // verus!
