//! What the operations of a campaign have in common: the campaign's time, the
//! integration of a position on the pool of its term, and the accounts of the
//! stakers.

use vstd::prelude::*;
use crate::campaign::accrual::integrate;
use crate::campaign::curve::Term;
use crate::campaign::lookup::{find_pool, first_where, is_pool_of};
use crate::campaign::state::{
    AssetToken, CampaignInfo, NftInfo, NftKey, pools_view, RewardRate, StakerRewardAssetInfo,
    StakerState, TermPool, TermState,
};
use crate::campaign::utils::calculate_reward;
use crate::error::{ContractError, Record, StdError};
use crate::math::saturate;

verus! {

/// The time at which a campaign that ends at `end_time` is looked at when
/// the clock shows `block_time`: the clock, but not behind the end.
pub open spec fn campaign_time(block_time: u64, end_time: u64) -> u64 {
    if end_time < block_time {
        end_time
    } else {
        block_time
    }
}

/// The clock, but not behind the end of the campaign.
pub(crate) fn clamp_time(block_time: u64, end_time: u64) -> (time: u64)
    ensures
        time == campaign_time(block_time, end_time),
{
    if end_time < block_time {
        end_time
    } else {
        block_time
    }
}

/// A position after its integration at `now` on the pool of its term among
/// `pools`, and the pools with the pool that the integration leaves in the
/// place of that pool; nothing where the term has no pool.
pub open spec fn integrate_in_pools(
    nft: NftInfo,
    pools: Seq<TermState>,
    now: u64,
    campaign_end: u64,
    reward_per_second: u128,
) -> Option<(NftInfo, Seq<TermState>)> {
    match first_where(pools, is_pool_of(nft.lockup_term.value)) {
        None => None,
        Some(i) => {
            let done = integrate(nft, pools[i].term, now, campaign_end, reward_per_second);
            Some((done.0, pools.update(i, TermState { term: done.1, ..pools[i] })))
        },
    }
}

/// A copy of a curve.
pub(crate) fn copy_rates(rates: &Vec<RewardRate>) -> (copy: Vec<RewardRate>)
    ensures
        copy@ == rates@,
{
    let mut copy: Vec<RewardRate> = Vec::new();
    let mut i: usize = 0;
    while i < rates.len()
        invariant
            i <= rates.len(),
            copy@ == rates@.take(i as int),
        decreases rates.len() - i,
    {
        copy.push(rates[i]);
        proof {
            assert(rates@.take(i + 1) =~= rates@.take(i as int).push(rates@[i as int]));
        }
        i += 1;
    }
    proof {
        assert(rates@.take(rates.len() as int) =~= rates@);
    }
    copy
}

/// A copy of a list of times.
pub(crate) fn copy_times(times: &Vec<u64>) -> (copy: Vec<u64>)
    ensures
        copy@ == times@,
{
    let mut copy: Vec<u64> = Vec::new();
    let mut i: usize = 0;
    while i < times.len()
        invariant
            i <= times.len(),
            copy@ == times@.take(i as int),
        decreases times.len() - i,
    {
        copy.push(times[i]);
        proof {
            assert(times@.take(i + 1) =~= times@.take(i as int).push(times@[i as int]));
        }
        i += 1;
    }
    proof {
        assert(times@.take(times.len() as int) =~= times@);
    }
    copy
}

/// What was looked for in vain: the pool of a term.
pub open spec fn no_pool() -> ContractError {
    ContractError::Std(StdError::NotFound { kind: Record::Term })
}

/// Integrates a position on the pool of its term and keeps the pool that
/// the integration leaves.
pub(crate) fn integrate_and_keep(
    nft: NftInfo,
    terms: Vec<TermPool>,
    now: u64,
    campaign_end: u64,
    reward_per_second: u128,
) -> (kept: Result<(NftInfo, Vec<TermPool>), ContractError>)
    ensures
        match integrate_in_pools(nft, pools_view(terms@), now, campaign_end, reward_per_second) {
            Some(done) => kept matches Ok(pair) && pair.0 == done.0 && pools_view(pair.1@)
                == done.1,
            None => (kept matches Err(reason) && reason == no_pool()),
        },
{
    match find_pool(&terms, nft.lockup_term.value) {
        None => Err(ContractError::Std(StdError::NotFound { kind: Record::Term })),
        Some(i) => {
            let ghost before = pools_view(terms@);
            let ghost position = nft;
            let mut terms = terms;
            let pool = terms.remove(i);
            assert(pool@ == before[i as int]);
            let (nft, reward_rates, total_staking, expiration_times) = calculate_reward(
                nft,
                pool.reward_rates,
                pool.expiration_times,
                pool.total_staking,
                now,
                campaign_end,
                reward_per_second,
            );
            terms.insert(
                i,
                TermPool {
                    lockup_term: pool.lockup_term,
                    reward_rates,
                    total_staking,
                    expiration_times,
                    number_of_nfts: pool.number_of_nfts,
                },
            );
            proof {
                let done = integrate(
                    position,
                    before[i as int].term,
                    now,
                    campaign_end,
                    reward_per_second,
                );
                assert(pools_view(terms@) =~= before.update(
                    i as int,
                    TermState { term: done.1, ..before[i as int] },
                ));
            }
            Ok((nft, terms))
        },
    }
}

/// Integrates a position on a copy of the pool of its term: the pool stays
/// as it is.
pub(crate) fn integrate_and_drop(
    nft: NftInfo,
    terms: &Vec<TermPool>,
    now: u64,
    campaign_end: u64,
    reward_per_second: u128,
) -> (seen: Result<NftInfo, ContractError>)
    ensures
        match integrate_in_pools(nft, pools_view(terms@), now, campaign_end, reward_per_second) {
            Some(done) => (seen matches Ok(value) && value == done.0),
            None => (seen matches Err(reason) && reason == no_pool()),
        },
{
    match find_pool(terms, nft.lockup_term.value) {
        None => Err(ContractError::Std(StdError::NotFound { kind: Record::Term })),
        Some(i) => {
            let pool = &terms[i];
            assert(pool@ == pools_view(terms@)[i as int]);
            let (nft, _, _, _) = calculate_reward(
                nft,
                copy_rates(&pool.reward_rates),
                copy_times(&pool.expiration_times),
                pool.total_staking,
                now,
                campaign_end,
                reward_per_second,
            );
            Ok(nft)
        },
    }
}

/// What was looked for in vain: the account of a staker.
pub open spec fn no_staker() -> ContractError {
    ContractError::Std(StdError::NotFound { kind: Record::Staker })
}

/// What was looked for in vain: a position.
pub open spec fn no_nft() -> ContractError {
    ContractError::Std(StdError::NotFound { kind: Record::Nft })
}

/// Whether a key is another than `key`.
pub open spec fn is_other_key(key: NftKey) -> spec_fn(NftKey) -> bool {
    |other: NftKey| !(other.key == key.key && other.lockup_term == key.lockup_term)
}

/// The keys among `keys` that are not `key`.
pub(crate) fn remove_key(keys: Vec<NftKey>, key: NftKey) -> (kept: Vec<NftKey>)
    ensures
        kept@ == keys@.filter(is_other_key(key)),
{
    let mut kept: Vec<NftKey> = Vec::new();
    let mut i: usize = 0;
    proof {
        assert(keys@.take(0).filter(is_other_key(key)) =~= Seq::<NftKey>::empty()) by {
            reveal(Seq::filter);
        }
    }
    while i < keys.len()
        invariant
            i <= keys.len(),
            kept@ == keys@.take(i as int).filter(is_other_key(key)),
        decreases keys.len() - i,
    {
        proof {
            assert(keys@.take(i + 1) =~= keys@.take(i as int).push(keys@[i as int]));
            keys@.take(i as int).lemma_filter_push(keys@[i as int], is_other_key(key));
        }
        if !(keys[i].key == key.key && keys[i].lockup_term == key.lockup_term) {
            kept.push(keys[i]);
        }
        i += 1;
    }
    proof {
        assert(keys@.take(keys.len() as int) =~= keys@);
    }
    kept
}

/// The account `staker` as a plain value, if there is one.
pub open spec fn account_view(staker: Option<StakerRewardAssetInfo>) -> Option<StakerState> {
    match staker {
        Some(account) => Some(account@),
        None => None,
    }
}

/// The ledger after `amount` was paid out of the balance.
pub open spec fn paid_ledger(campaign_info: CampaignInfo, amount: u128) -> CampaignInfo {
    CampaignInfo {
        reward_token: AssetToken {
            amount: saturate(campaign_info.reward_token.amount - amount) as u128,
            ..campaign_info.reward_token
        },
        total_reward_claimed: saturate(campaign_info.total_reward_claimed + amount) as u128,
        ..campaign_info
    }
}

/// The account of a staker who holds nothing.
pub open spec fn new_account() -> StakerState {
    StakerState { keys: Seq::empty(), reward_debt: 0, reward_claimed: 0 }
}

} // verus!
