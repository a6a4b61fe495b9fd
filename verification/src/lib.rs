//! Time-weighted reward accrual for fixed-term staking campaigns.
//!
//! A campaign emits a reward budget at a constant rate per second. Each
//! lock-up term owns a fixed percentage of that rate, shared equally by the
//! positions that are locked into the term at the same instant. The modules
//! below hold the per-term step function of concurrently active positions,
//! the integration of one position's share over it, and the decisions of the
//! campaign and reward ledgers built on top. Every function is a pure
//! function of its arguments: callers load the state, call, and persist
//! what comes back.

pub mod campaign;
pub mod error;
pub mod math;
pub mod reward;
