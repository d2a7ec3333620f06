//! Ledger account space: ordinary user accounts and per-task escrow
//! sub-accounts.
//!
//! An escrow sub-account is derived from a task identifier alone, so it can
//! never coincide with a user account and two distinct tasks can never share
//! an escrow sub-account.

use vstd::prelude::*;

verus! {

/// An account that can hold funds: either a user account, named by its
/// numeric identity, or the escrow sub-account of a task, named by the
/// task's identifier.
#[derive(Clone, Copy, PartialEq, Eq, Structural, Debug, Hash)]
pub enum Account {
    /// An ordinary account, controlled by a user.
    User(u64),
    /// The escrow sub-account holding one task's budget.
    Escrow(u64),
}

/// The escrow sub-account of the task with identifier `id`: a pure
/// derivation, so the address is unique and unforgeable by construction.
pub fn escrow_address(id: u64) -> (a: Account)
    ensures
        a == Account::Escrow(id),
{
    Account::Escrow(id)
}

} // verus!
