//! The staking campaign: its records, the accrual engine and the ledger
//! decisions.

pub mod accrual;
pub mod contract;
pub mod curve;
pub mod laws;
pub mod lookup;
pub mod msg;
pub mod sorting;
pub mod state;
pub mod utils;
