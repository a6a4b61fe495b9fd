//! The balance of a campaign is covered by its deposits, and a withdrawal
//! releases no more than the deposits less what the campaign owes.

use vstd::prelude::*;
use crate::campaign::contract::{
    claimed, funded, new_campaign, paid_ledger, pending_reward, unstaked_and_claimed, withdrawn,
};
use crate::campaign::msg::InstantiateMsg;
use crate::campaign::state::{CampaignInfo, NftInfo, NftKey, StakerState, TermState};
use crate::math::saturate;

verus! {

/// A new campaign is covered: it holds nothing, and nothing was deposited.
pub proof fn lemma_new_campaign_backed(msg: InstantiateMsg)
    ensures
        new_campaign(msg).backed(),
{
}

/// A deposit keeps the balance covered by the deposits.
pub proof fn lemma_deposit_keeps_backed(campaign_info: CampaignInfo, amount: u128)
    requires
        campaign_info.backed(),
    ensures
        funded(campaign_info, amount).backed(),
        funded(campaign_info, amount).total_reward >= campaign_info.total_reward,
{
}

/// A payment keeps the balance covered by the deposits, and changes no
/// deposit.
pub proof fn lemma_payment_keeps_backed(campaign_info: CampaignInfo, amount: u128)
    requires
        campaign_info.backed(),
    ensures
        paid_ledger(campaign_info, amount).backed(),
        paid_ledger(campaign_info, amount).total_reward == campaign_info.total_reward,
{
}

/// A claim keeps the balance covered by the deposits.
pub proof fn lemma_claim_keeps_backed(
    campaign_info: CampaignInfo,
    staker: Option<StakerState>,
    nfts: Seq<NftInfo>,
    pools: Seq<TermState>,
    amount: u128,
    block_time: u64,
)
    requires
        campaign_info.backed(),
        claimed(campaign_info, staker, nfts, pools, amount, block_time) is Ok,
    ensures
        ({
            let ledger = claimed(
                campaign_info,
                staker,
                nfts,
                pools,
                amount,
                block_time,
            ).unwrap().campaign_info;
            ledger.backed() && ledger.total_reward == campaign_info.total_reward
        }),
{
}

/// An unstaking with payment keeps the balance covered by the deposits.
pub proof fn lemma_unstake_and_claim_keeps_backed(
    campaign_info: CampaignInfo,
    staker: Option<StakerState>,
    nfts: Seq<NftInfo>,
    pools: Seq<TermState>,
    sender: String,
    un_stakes: Seq<NftKey>,
    block_time: u64,
)
    requires
        campaign_info.backed(),
        unstaked_and_claimed(campaign_info, staker, nfts, pools, sender, un_stakes, block_time)
            is Ok,
    ensures
        ({
            let ledger = unstaked_and_claimed(
                campaign_info,
                staker,
                nfts,
                pools,
                sender,
                un_stakes,
                block_time,
            ).unwrap().campaign_info;
            ledger.backed() && ledger.total_reward == campaign_info.total_reward
        }),
{
}

/// A withdrawal releases no more than the deposits less what the campaign
/// owes, and keeps the balance covered by the deposits.
///
/// Where the balance of the campaign is covered by its deposits, what a
/// withdrawal releases is no more than what was deposited less what the
/// campaign owes to its stakers at its end; where the campaign owes more
/// than was deposited, nothing is released.
pub proof fn lemma_withdraw_within_deposits(
    campaign_info: CampaignInfo,
    pools: Seq<TermState>,
    previous_total_reward: u128,
    sender: String,
    block_time: u64,
)
    requires
        campaign_info.backed(),
        withdrawn(campaign_info, pools, previous_total_reward, sender, block_time) is Ok,
    ensures
        ({
            let done = withdrawn(
                campaign_info,
                pools,
                previous_total_reward,
                sender,
                block_time,
            ).unwrap();
            let owed = pending_reward(
                campaign_info,
                pools,
                previous_total_reward,
                campaign_info.end_time,
            ).unwrap();
            &&& done.1 <= saturate(campaign_info.total_reward - owed)
            &&& owed <= campaign_info.total_reward ==> done.1 <= campaign_info.total_reward - owed
            &&& owed > campaign_info.total_reward ==> done.1 == 0
            &&& done.0.backed()
            &&& done.0.total_reward == campaign_info.total_reward
        }),
{
}

} // verus!
