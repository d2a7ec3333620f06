//! The typed errors that the lifecycle operations return.
//!
//! Every operation is all-or-nothing: when one of these is returned, no
//! structural change and no fund movement is retained.

use vstd::prelude::*;

verus! {

/// Why a lifecycle operation was rejected.
#[derive(Clone, Copy, PartialEq, Eq, Structural, Debug)]
pub enum Error {
    /// The referenced task is not in the store.
    TaskNotFound,
    /// An involved account has no registered identity, or its reputation
    /// counter cannot record one more credit.
    NoIdentity,
    /// The requested deadline is not strictly later than the current time.
    InvalidDeadline,
    /// A task with identical creation-time content already exists.
    TaskAlreadyExists,
    /// The mutation would push an account's ownership index past its
    /// capacity.
    OwnershipCapacityExceeded,
    /// The global task counter cannot record one more task.
    TaskCountOverflow,
    /// The paying account's balance does not cover the transfer.
    InsufficientFunds,
    /// Only the initiator may update a task.
    OnlyInitiatorUpdatesTask,
    /// The task has been started, so its fields can no longer be updated.
    NoPermissionToUpdate,
    /// The task is already started, or the would-be volunteer is the
    /// initiator.
    NoPermissionToStart,
    /// The caller is not the volunteer currently working on the task.
    NoPermissionToComplete,
    /// Only the initiator may accept or reject a completed task.
    OnlyInitiatorAcceptsTask,
    /// The task is not pending the initiator's review.
    NotInReviewState,
    /// The caller may not remove the task: it is not the initiator, or the
    /// task has already been started.
    NoPermissionToRemove,
}

} // verus!
