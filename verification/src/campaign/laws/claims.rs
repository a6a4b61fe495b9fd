//! A claim pays no more than is owed.

use vstd::prelude::*;
use crate::campaign::contract::{campaign_time, claimed, gather, Gathering};
use crate::campaign::state::{CampaignInfo, NftInfo, StakerState, TermState};
use crate::error::ContractError;
use crate::math::saturate;

verus! {

/// What the positions `account.keys` of a staker are gathered to at the
/// campaign's time.
pub open spec fn gathered(
    campaign_info: CampaignInfo,
    account: StakerState,
    nfts: Seq<NftInfo>,
    pools: Seq<TermState>,
    block_time: u64,
) -> Result<Gathering, ContractError> {
    gather(
        Gathering { nfts, pools, reward: 0 },
        account.keys,
        campaign_time(block_time, campaign_info.end_time),
        campaign_info.end_time,
        campaign_info.reward_per_second,
    )
}

/// A claim of more than is owed is rejected: where the reward of the
/// staker's positions can be gathered and `amount` is more than the
/// staker's reward debt and the gathered reward together, the claim fails
/// for want of balance, and so leaves every record as it is.
pub proof fn lemma_claim_rejected(
    campaign_info: CampaignInfo,
    account: StakerState,
    nfts: Seq<NftInfo>,
    pools: Seq<TermState>,
    amount: u128,
    block_time: u64,
)
    requires
        gathered(campaign_info, account, nfts, pools, block_time) is Ok,
        amount > account.reward_debt + gathered(
            campaign_info,
            account,
            nfts,
            pools,
            block_time,
        ).unwrap().reward,
    ensures
        claimed(campaign_info, Some(account), nfts, pools, amount, block_time) matches Err(reason)
            && reason == (ContractError::InsufficientBalance {  }),
{
}

/// A claim pays no more than is owed: where a claim of `amount` goes
/// through, `amount` is no more than the staker's reward
/// debt and the gathered reward together. What the staker and the campaign
/// have claimed grows by `amount`, the balance goes down by `amount`, and
/// the rest of what was owed is the staker's new debt, each cut off at the
/// ends of the range of amounts.
pub proof fn lemma_claim_within_owed(
    campaign_info: CampaignInfo,
    account: StakerState,
    nfts: Seq<NftInfo>,
    pools: Seq<TermState>,
    amount: u128,
    block_time: u64,
)
    requires
        claimed(campaign_info, Some(account), nfts, pools, amount, block_time) is Ok,
    ensures
        ({
            let paid = claimed(
                campaign_info,
                Some(account),
                nfts,
                pools,
                amount,
                block_time,
            ).unwrap();
            let owed = account.reward_debt + gathered(
                campaign_info,
                account,
                nfts,
                pools,
                block_time,
            ).unwrap().reward;
            &&& amount <= owed
            &&& paid.staker.reward_debt == saturate(owed) - amount
            &&& paid.staker.reward_claimed == saturate(account.reward_claimed + amount)
            &&& paid.campaign_info.total_reward_claimed == saturate(
                campaign_info.total_reward_claimed + amount,
            )
            &&& paid.campaign_info.reward_token.amount == saturate(
                campaign_info.reward_token.amount - amount,
            )
            &&& paid.staker.keys == account.keys
        }),
{
}

} // verus!
