//! What a campaign owes to its stakers, and the withdrawal of the rest.

use vstd::prelude::*;
use crate::campaign::accrual::{
    curve_liability, lemma_liability_nonnegative, liability_upto, settle_at,
};
use crate::campaign::curve::Term;
use crate::campaign::lookup::{find_pool, first_where, is_pool_of};
use crate::campaign::state::{
    AssetToken, CampaignInfo, LockupTerm, pools_view, RewardRate, TermPool, TermState, TokenInfo,
};
use crate::campaign::utils::{fold_expired, update_reward_rate};
use crate::error::{ContractError, Record, StdError};
use crate::math::{saturate, saturating_mul, saturating_sub};
use super::shared::{campaign_time, clamp_time, copy_rates, copy_times, no_pool};

verus! {

/// What a curve owes, added to `owed` and cut off at the largest amount.
pub(crate) fn add_curve_liability(
    owed: u128,
    curve: &Vec<RewardRate>,
    reward_per_second: u128,
    percent: u128,
    Ghost(exact): Ghost<int>,
) -> (sum: u128)
    requires
        exact >= 0,
        owed == saturate(exact),
    ensures
        sum == saturate(exact + curve_liability(curve@, reward_per_second, percent)),
{
    let mut sum = owed;
    if curve.len() > 1 {
        let mut i: usize = 0;
        while i < curve.len() - 1
            invariant
                curve.len() > 1,
                i <= curve.len() - 1,
                exact >= 0,
                sum == saturate(exact + liability_upto(curve@, i as int, reward_per_second, percent)),
            decreases curve.len() - i,
        {
            let current = curve[i];
            let next = curve[i + 1];
            proof {
                lemma_liability_nonnegative(curve@, i as int, reward_per_second, percent);
            }
            if current.rate != 0 && next.timestamp > current.timestamp {
                let duration: u128 = (next.timestamp - current.timestamp) as u128;
                let product = saturating_mul(saturating_mul(duration, reward_per_second), percent)
                    / 100u128;
                sum = sum.saturating_add(product);
            }
            i += 1;
        }
    }
    sum
}

/// What the terms `terms` owe for their curves, settled at `as_of`, added
/// to `owed`; nothing where a term has no pool.
pub open spec fn owed_with(
    owed: int,
    terms: Seq<LockupTerm>,
    pools: Seq<TermState>,
    as_of: u64,
    reward_per_second: u128,
) -> Option<int>
    decreases terms.len(),
{
    if terms.len() == 0 {
        Some(owed)
    } else {
        match first_where(pools, is_pool_of(terms.first().value)) {
            None => None,
            Some(p) => owed_with(
                owed + curve_liability(
                    settle_at(pools[p].term, as_of).samples,
                    reward_per_second,
                    terms.first().percent,
                ),
                terms.drop_first(),
                pools,
                as_of,
                reward_per_second,
            ),
        }
    }
}

/// What the campaign owes to its stakers at `as_of`: what it owed when its
/// curves were last compacted and what its terms owe for their curves
/// since, less what was claimed. Nothing where a term has no pool.
pub open spec fn pending_reward(
    campaign_info: CampaignInfo,
    pools: Seq<TermState>,
    previous_total_reward: u128,
    as_of: u64,
) -> Option<u128> {
    match owed_with(
        previous_total_reward as int,
        campaign_info.lockup_term@,
        pools,
        as_of,
        campaign_info.reward_per_second,
    ) {
        None => None,
        Some(owed) => Some(saturate(saturate(owed) - campaign_info.total_reward_claimed) as u128),
    }
}

/// What the campaign owes to its stakers at `as_of`. The pools stay as they
/// are.
#[verifier::loop_isolation(false)]
fn total_pending_reward(
    campaign_info: &CampaignInfo,
    terms: &Vec<TermPool>,
    previous_total_reward: u128,
    as_of: u64,
) -> (pending: Result<u128, ContractError>)
    ensures
        match pending_reward(*campaign_info, pools_view(terms@), previous_total_reward, as_of) {
            Some(owed) => (pending matches Ok(value) && value == owed),
            None => (pending matches Err(reason) && reason == no_pool()),
        },
{
    let mut total_pending_reward = previous_total_reward;
    let ghost mut exact: int = previous_total_reward as int;
    let ghost pools = pools_view(terms@);
    let mut i: usize = 0;
    proof {
        assert(campaign_info.lockup_term@.skip(0) =~= campaign_info.lockup_term@);
    }
    while i < campaign_info.lockup_term.len()
        invariant
            i <= campaign_info.lockup_term.len(),
            exact >= 0,
            total_pending_reward == saturate(exact),
            owed_with(
                previous_total_reward as int,
                campaign_info.lockup_term@,
                pools,
                as_of,
                campaign_info.reward_per_second,
            ) == owed_with(
                exact,
                campaign_info.lockup_term@.skip(i as int),
                pools,
                as_of,
                campaign_info.reward_per_second,
            ),
        decreases campaign_info.lockup_term.len() - i,
    {
        let term = campaign_info.lockup_term[i];
        proof {
            assert(campaign_info.lockup_term@.skip(i as int).first() == term);
            assert(campaign_info.lockup_term@.skip(i as int).drop_first()
                =~= campaign_info.lockup_term@.skip(i + 1));
        }
        let place = match find_pool(terms, term.value) {
            None => {
                return Err(ContractError::Std(StdError::NotFound { kind: Record::Term }));
            },
            Some(place) => place,
        };
        let pool = &terms[place];
        assert(pool@ == pools[place as int]);
        let (_, settled_rate, total_staking) = fold_expired(
            copy_times(&pool.expiration_times),
            copy_rates(&pool.reward_rates),
            pool.total_staking,
            as_of,
        );
        let (final_reward_rate, _) = update_reward_rate(settled_rate, total_staking, as_of, 0);
        total_pending_reward = add_curve_liability(
            total_pending_reward,
            &final_reward_rate,
            campaign_info.reward_per_second,
            term.percent,
            Ghost(exact),
        );
        proof {
            lemma_liability_nonnegative(
                final_reward_rate@,
                final_reward_rate@.len() - 1,
                campaign_info.reward_per_second,
                term.percent,
            );
            exact = exact + curve_liability(
                final_reward_rate@,
                campaign_info.reward_per_second,
                term.percent,
            );
        }
        i += 1;
    }
    Ok(saturating_sub(total_pending_reward, campaign_info.total_reward_claimed))
}

/// What a withdrawal comes to: the ledger and the amount that is released,
/// or the reason for which it is rejected.
///
/// Only the owner may withdraw, and only once the campaign has ended. What
/// the campaign owes to its stakers at its end stays in the balance; the
/// rest of the balance is released. Where rewards are paid in a token of a
/// contract, the balance goes down by what is released.
pub open spec fn withdrawn(
    campaign_info: CampaignInfo,
    pools: Seq<TermState>,
    previous_total_reward: u128,
    sender: String,
    block_time: u64,
) -> Result<(CampaignInfo, u128), ContractError> {
    if sender@ != campaign_info.owner@ {
        Err(ContractError::Unauthorized {  })
    } else if campaign_info.end_time > block_time {
        Err(ContractError::InvalidTimeToWithdrawReward {  })
    } else {
        match pending_reward(campaign_info, pools, previous_total_reward, campaign_info.end_time) {
            None => Err(no_pool()),
            Some(owed) => {
                let released = saturate(campaign_info.reward_token.amount - owed) as u128;
                Ok(
                    (
                        if campaign_info.reward_token.info is Token {
                            CampaignInfo {
                                reward_token: AssetToken {
                                    amount: saturate(campaign_info.reward_token.amount - released)
                                        as u128,
                                    ..campaign_info.reward_token
                                },
                                ..campaign_info
                            }
                        } else {
                            campaign_info
                        },
                        released,
                    ),
                )
            },
        }
    }
}

/// Releases to the owner what the campaign does not owe to its stakers.
///
/// Returns the ledger and the amount to release. The amount is never more
/// than the balance less what the campaign owes.
pub fn execute_withdraw_reward(
    campaign_info: CampaignInfo,
    terms: &Vec<TermPool>,
    previous_total_reward: u128,
    sender: &String,
    block_time: u64,
) -> (released: Result<(CampaignInfo, u128), ContractError>)
    ensures
        released == withdrawn(
            campaign_info,
            pools_view(terms@),
            previous_total_reward,
            *sender,
            block_time,
        ),
        released matches Ok(out) ==> {
            &&& campaign_info.wf() ==> out.0.wf()
            &&& out.1 <= campaign_info.reward_token.amount
            &&& campaign_info.backed() ==> out.1 <= campaign_info.total_reward
        },
{
    if *sender != campaign_info.owner {
        return Err(ContractError::Unauthorized {  });
    }
    if campaign_info.end_time > block_time {
        return Err(ContractError::InvalidTimeToWithdrawReward {  });
    }
    let total_pending_reward = match total_pending_reward(
        &campaign_info,
        terms,
        previous_total_reward,
        campaign_info.end_time,
    ) {
        Err(error) => {
            return Err(error);
        },
        Ok(owed) => owed,
    };
    let withdraw_reward = saturating_sub(campaign_info.reward_token.amount, total_pending_reward);
    let mut campaign_info = campaign_info;
    match &campaign_info.reward_token.info {
        TokenInfo::Token { .. } => {
            campaign_info.reward_token.amount = saturating_sub(
                campaign_info.reward_token.amount,
                withdraw_reward,
            );
        },
        TokenInfo::NativeToken { .. } => {},
    }
    Ok((campaign_info, withdraw_reward))
}

/// What the campaign owes to its stakers at the campaign's time: what it
/// owed when its curves were last compacted and what its terms owe for their
/// curves since, less what was claimed.
pub fn query_total_pending_reward(
    campaign_info: &CampaignInfo,
    terms: &Vec<TermPool>,
    previous_total_reward: u128,
    block_time: u64,
) -> (pending: Result<u128, ContractError>)
    ensures
        match pending_reward(
            *campaign_info,
            pools_view(terms@),
            previous_total_reward,
            campaign_time(block_time, campaign_info.end_time),
        ) {
            Some(owed) => (pending matches Ok(value) && value == owed),
            None => (pending matches Err(reason) && reason == no_pool()),
        },
{
    let current_time = clamp_time(block_time, campaign_info.end_time);
    total_pending_reward(campaign_info, terms, previous_total_reward, current_time)
}

} // verus!
