//! Paying a staker what the campaign owes.

use vstd::prelude::*;
use crate::campaign::lookup::{find_nft, first_where, has_key};
use crate::campaign::state::{
    CampaignInfo, NftInfo, NftKey, pools_view, StakerRewardAssetInfo, StakerState, TermPool,
    TermState, TokenInfo,
};
use crate::error::{ContractError, Record, StdError};
use crate::math::{checked_add, saturate, saturating_add, saturating_sub};
use super::shared::{
    account_view, campaign_time, clamp_time, integrate_and_keep, integrate_in_pools, no_nft,
    no_pool, paid_ledger,
};

verus! {

/// The state of a claim while the positions of the staker are integrated:
/// the positions and pools on record, and the reward gathered so far.
pub struct Gathering {
    pub nfts: Seq<NftInfo>,
    pub pools: Seq<TermState>,
    pub reward: u128,
}

/// Gathers the pending reward of the positions `keys`, one after the other.
///
/// Each position is integrated at `now` on the pool of its term, which
/// keeps what the integration leaves; its pending reward is added to the
/// reward gathered, cut off at the largest amount, and set to zero. A key
/// without position and a position without pool end the gathering.
pub open spec fn gather(
    state: Gathering,
    keys: Seq<NftKey>,
    now: u64,
    campaign_end: u64,
    reward_per_second: u128,
) -> Result<Gathering, ContractError>
    decreases keys.len(),
{
    if keys.len() == 0 {
        Ok(state)
    } else {
        let key = keys.first();
        match first_where(state.nfts, has_key(key.key, key.lockup_term)) {
            None => Err(no_nft()),
            Some(i) => match integrate_in_pools(
                state.nfts[i],
                state.pools,
                now,
                campaign_end,
                reward_per_second,
            ) {
                None => Err(no_pool()),
                Some(done) => gather(
                    Gathering {
                        nfts: state.nfts.update(i, NftInfo { pending_reward: 0, ..done.0 }),
                        pools: done.1,
                        reward: saturate(state.reward + done.0.pending_reward) as u128,
                    },
                    keys.drop_first(),
                    now,
                    campaign_end,
                    reward_per_second,
                ),
            },
        }
    }
}

/// The account of a staker who gathered `reward` and is paid `amount`.
pub open spec fn paid_account(account: StakerState, reward: u128, amount: u128) -> StakerState {
    StakerState {
        reward_claimed: saturate(account.reward_claimed + amount) as u128,
        reward_debt: saturate(saturate(account.reward_debt + reward) - amount) as u128,
        ..account
    }
}

/// What a claim leaves on record.
#[derive(Clone, Debug, PartialEq, Eq)]
pub struct Claimed {
    pub campaign_info: CampaignInfo,
    pub staker: StakerRewardAssetInfo,
    pub nfts: Vec<NftInfo>,
    pub terms: Vec<TermPool>,
}

/// `Claimed` as a plain value.
pub struct ClaimedState {
    pub campaign_info: CampaignInfo,
    pub staker: StakerState,
    pub nfts: Seq<NftInfo>,
    pub pools: Seq<TermState>,
}

impl View for Claimed {
    type V = ClaimedState;

    open spec fn view(&self) -> ClaimedState {
        ClaimedState {
            campaign_info: self.campaign_info,
            staker: self.staker@,
            nfts: self.nfts@,
            pools: pools_view(self.terms@),
        }
    }
}

/// What a claim of `amount` comes to, or the reason for which it is
/// rejected.
///
/// A claim is rejected where the sender has no account, where the reward
/// of the positions cannot be gathered, where `amount` is more than the
/// staker's reward debt and the reward gathered together, and where rewards
/// would be paid in a native token, in this order. Else the positions and
/// pools are as the gathering leaves them, and `amount` is paid: it is added
/// to what the staker and the campaign have claimed and taken from the
/// balance, and what remains of debt and gathered reward is the staker's new
/// debt.
pub open spec fn claimed(
    campaign_info: CampaignInfo,
    staker: Option<StakerState>,
    nfts: Seq<NftInfo>,
    pools: Seq<TermState>,
    amount: u128,
    block_time: u64,
) -> Result<ClaimedState, ContractError> {
    match staker {
        None => Err(ContractError::InvalidClaim {  }),
        Some(account) => match gather(
            Gathering { nfts, pools, reward: 0 },
            account.keys,
            campaign_time(block_time, campaign_info.end_time),
            campaign_info.end_time,
            campaign_info.reward_per_second,
        ) {
            Err(error) => Err(error),
            Ok(gathered) => if amount > account.reward_debt + gathered.reward {
                Err(ContractError::InsufficientBalance {  })
            } else if campaign_info.reward_token.info is NativeToken {
                Err(ContractError::InvalidToken {  })
            } else {
                Ok(
                    ClaimedState {
                        campaign_info: paid_ledger(campaign_info, amount),
                        staker: paid_account(account, gathered.reward, amount),
                        nfts: gathered.nfts,
                        pools: gathered.pools,
                    },
                )
            },
        },
    }
}

/// Pays a staker `amount` of what the campaign owes.
///
/// All positions of the staker are integrated at the campaign's time and
/// their pending reward is gathered. The claim is rejected, and nothing
/// changes, where `amount` is more than the reward debt of the staker and
/// the gathered reward together, or where the campaign's reward token is a
/// native token, in which nothing can be paid. `nfts` holds the positions
/// of the staker and `terms` the pools of their terms.
#[verifier::loop_isolation(false)]
pub fn execute_claim_reward(
    campaign_info: CampaignInfo,
    staker: Option<StakerRewardAssetInfo>,
    nfts: Vec<NftInfo>,
    terms: Vec<TermPool>,
    amount: u128,
    block_time: u64,
) -> (paid: Result<Claimed, ContractError>)
    ensures
        match claimed(
            campaign_info,
            account_view(staker),
            nfts@,
            pools_view(terms@),
            amount,
            block_time,
        ) {
            Ok(expected) => paid matches Ok(out) && out@ == expected && (campaign_info.wf()
                ==> out.campaign_info.wf()),
            Err(error) => (paid matches Err(reason) && reason == error),
        },
{
    let mut staker_info = match staker {
        None => {
            return Err(ContractError::InvalidClaim {  });
        },
        Some(account) => account,
    };
    let current_time = clamp_time(block_time, campaign_info.end_time);
    let mut pending_reward_staker: u128 = 0;
    let mut nfts = nfts;
    let mut terms = terms;
    let ghost start = Gathering { nfts: nfts@, pools: pools_view(terms@), reward: 0 };
    let ghost keys = staker_info.keys@;
    let ghost account = staker_info@;
    let mut i: usize = 0;
    proof {
        assert(keys.skip(0) =~= keys);
    }
    while i < staker_info.keys.len()
        invariant
            i <= staker_info.keys.len(),
            account == staker_info@,
            keys == account.keys,
            gather(
                start,
                keys,
                current_time,
                campaign_info.end_time,
                campaign_info.reward_per_second,
            ) == gather(
                Gathering {
                    nfts: nfts@,
                    pools: pools_view(terms@),
                    reward: pending_reward_staker,
                },
                keys.skip(i as int),
                current_time,
                campaign_info.end_time,
                campaign_info.reward_per_second,
            ),
        decreases staker_info.keys.len() - i,
    {
        let key = staker_info.keys[i];
        proof {
            assert(keys.skip(i as int).first() == key);
            assert(keys.skip(i as int).drop_first() =~= keys.skip(i + 1));
        }
        let place = match find_nft(&nfts, key.key, key.lockup_term) {
            None => {
                return Err(ContractError::Std(StdError::NotFound { kind: Record::Nft }));
            },
            Some(place) => place,
        };
        let nft_info = nfts[place].duplicate();
        let (mut new_nft_info, new_terms) = match integrate_and_keep(
            nft_info,
            terms,
            current_time,
            campaign_info.end_time,
            campaign_info.reward_per_second,
        ) {
            Err(error) => {
                return Err(error);
            },
            Ok(done) => done,
        };
        pending_reward_staker = saturating_add(pending_reward_staker, new_nft_info.pending_reward);
        new_nft_info.pending_reward = 0;
        nfts.set(place, new_nft_info);
        terms = new_terms;
        i += 1;
    }
    let owed = checked_add(staker_info.reward_debt, pending_reward_staker);
    let too_much = match owed {
        Ok(sum) => amount > sum,
        Err(_) => false,
    };
    if too_much {
        return Err(ContractError::InsufficientBalance {  });
    }
    let mut campaign_info = campaign_info;
    match &campaign_info.reward_token.info {
        TokenInfo::Token { .. } => {},
        TokenInfo::NativeToken { .. } => {
            return Err(ContractError::InvalidToken {  });
        },
    }
    staker_info.reward_claimed = saturating_add(staker_info.reward_claimed, amount);
    staker_info.reward_debt = saturating_sub(
        saturating_add(staker_info.reward_debt, pending_reward_staker),
        amount,
    );
    campaign_info.reward_token.amount = saturating_sub(campaign_info.reward_token.amount, amount);
    campaign_info.total_reward_claimed = saturating_add(
        campaign_info.total_reward_claimed,
        amount,
    );
    Ok(Claimed { campaign_info, staker: staker_info, nfts, terms })
}

} // verus!
