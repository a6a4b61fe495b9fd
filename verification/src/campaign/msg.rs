//! What a campaign is set up with.

use vstd::prelude::*;
use super::state::{AssetToken, LockupTerm};

verus! {

/// The request that sets up a campaign.
#[derive(Clone, Debug, PartialEq, Eq)]
pub struct InstantiateMsg {
    pub admin: String,
    pub owner: String,
    pub campaign_name: String,
    pub campaign_image: String,
    pub campaign_description: String,
    /// The most positions that one staker may hold; zero for no limit.
    pub limit_per_staker: u64,
    /// The most positions that the campaign may hold; zero for no limit.
    pub total_eligible: u64,
    pub reward_token_info: AssetToken,
    pub allowed_collection: String,
    pub lockup_term: Vec<LockupTerm>,
    pub start_time: u64,
    pub end_time: u64,
}

} // verus!
