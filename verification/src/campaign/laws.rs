//! What holds of the accrual engine, whatever the positions, the terms and
//! the times.

pub mod active_count;
pub mod budget;
pub mod claims;
pub mod compacted;
pub mod compaction;
pub mod conservation;
pub mod curve_counts;
pub mod history;
pub mod idempotence;
pub mod invariants;
pub mod lock;
pub mod monotone;
pub mod reserve;
pub mod solvency;
pub mod stability;
