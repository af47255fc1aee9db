//! The error taxonomy of the ledger.

use vstd::prelude::*;

verus! {

/// Every way a ledger operation can fail.
///
/// Each variant is returned by exactly the operations whose contracts name
/// it; no operation in this crate panics on any input its `requires` admits.
#[derive(Clone, Copy, Debug, PartialEq, Eq, Structural)]
pub enum TokenError {
    /// The owner's balance for the token id is smaller than the requested
    /// debit.
    InsufficientBalance,
    /// The delegate's approval covers less than the requested amount.
    InsufficientApproval,
    /// No approval entry exists for the delegate on this (token, owner).
    ApprovalNotFound,
    /// The quoted approval id is not the currently stored one: a stale or
    /// replayed authorization.
    ApprovalIdMismatch,
    /// A self-transfer, or a transfer of a zero amount.
    InvalidTransfer,
    /// The token-id and amount lists of a batch differ in length, or are
    /// empty.
    MalformedBatch,
    /// The account has no storage-credit entry.
    NotRegistered,
    /// The account's storage credit does not cover the cost of its current
    /// footprint, or a deposit is below the registration minimum.
    InsufficientStorageBalance,
}

} // verus!
