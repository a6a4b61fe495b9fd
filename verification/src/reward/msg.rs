//! What a reward ledger is set up with.

use vstd::prelude::*;
use super::state::AssetToken;

verus! {

/// The request that sets up a reward ledger.
#[derive(Clone, Debug, PartialEq, Eq)]
pub struct InstantiateMsg {
    pub owner: String,
    pub reward_token_info: AssetToken,
}

} // verus!
