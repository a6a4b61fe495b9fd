//! The reward ledger: a balance of one token that its owner hands out to
//! the stakers of a watch list.

pub mod contract;
pub mod msg;
pub mod state;
