//! Accounting core of a token-staking ledger.
//!
//! The crate tracks how much each participant has bonded into a pool,
//! accrues pro-rata rewards as the pool's reward index advances, keeps a
//! height-indexed history of bonded balances, and enforces a time-locked
//! unbonding process before bonded funds are returned.  Token transfers,
//! address encoding and persistent storage belong to outside collaborators;
//! every operation here works on plain values and returns the release
//! actions and events that such a collaborator must dispatch.

pub mod engine;
pub mod errors;
pub mod locks;
pub mod rewards;
pub mod snapshot;
