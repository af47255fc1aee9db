//! A multi-asset token ledger with delegated spending and a rollback-safe
//! transfer-and-call protocol.
//!
//! The ledger tracks, per account, the balance it holds of each token id,
//! together with per-delegate spending approvals that are versioned by a
//! monotonically increasing approval id. Transfers are validated against
//! ownership and approvals; batch transfers are all-or-nothing; and the
//! transfer-and-call protocol optimistically applies a transfer, waits for
//! an external receiver's verdict, and refunds whatever the receiver did
//! not keep.

pub mod errors;
pub mod approvals;
pub mod holdings;
pub mod storage;
pub mod token;
pub mod transfer_call;
