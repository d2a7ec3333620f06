//! Lifecycle and settlement engine for escrowed two-party work assignments.
//!
//! An initiator posts a task with a budget held in escrow, a volunteer claims
//! and performs it, and the initiator accepts or rejects the result.  Funds
//! and reputation are settled atomically, and a periodic sweep expires tasks
//! whose deadline has passed.

pub mod account;
pub mod assoc;
pub mod errors;
pub mod index;
pub mod ledger;
pub mod lifecycle;
pub mod registry;
pub mod store;
pub mod task;

pub use account::Account;
pub use account::escrow_address;
pub use errors::Error;
pub use index::OwnershipIndex;
pub use ledger::Ledger;
pub use lifecycle::TaskLifecycle;
pub use registry::IdentityRegistry;
pub use store::TaskStore;
pub use task::Task;
pub use task::TaskStatus;
pub use task::derive_task_id;
