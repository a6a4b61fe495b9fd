//! Staking tokens into a lock-up term.

use vstd::prelude::*;
use crate::campaign::curve::{stake, Term};
use crate::campaign::lookup::{
    find_pool, find_term, first_where, is_pool_of, lasts, lemma_first_where,
};
use crate::campaign::state::{
    CampaignInfo, LockupTerm, NftInfo, NftKey, NftStake, pools_view, StakerRewardAssetInfo,
    StakerState, TermPool, TermState,
};
use crate::campaign::utils::stake_nft;
use crate::error::{ContractError, Record, StdError};
use super::shared::{account_view, new_account, no_pool};

verus! {

/// The state of a staking of several tokens: the new positions, the pool
/// of their term, the keys of the staker and the number of positions in the
/// campaign.
pub struct Staking {
    pub nfts: Seq<NftInfo>,
    pub pool: TermState,
    pub keys: Seq<NftKey>,
    pub total_nfts: u64,
}

/// The number after `count`, or `count` where it is the largest number.
pub open spec fn next_count(count: u64) -> u64 {
    if count == u64::MAX {
        count
    } else {
        (count + 1) as u64
    }
}

/// Whether the collection reports `sender` as the owner of the token at
/// place `i`. A token of which nothing is reported is not the sender's.
pub open spec fn owned_by(owners: Seq<Option<String>>, i: int, sender: String) -> bool {
    0 <= i < owners.len() && (owners[i] matches Some(owner) && owner@ == sender@)
}

/// The position of the token `token_id` that `sender` stakes at `now` into
/// `lockup_term` under the number `key`. Its lock ends when the term has
/// passed, at the latest at the largest time.
pub open spec fn new_position(
    key: u64,
    token_id: String,
    sender: String,
    lockup_term: LockupTerm,
    now: u64,
) -> NftInfo {
    NftInfo {
        key,
        token_id,
        owner: sender,
        pending_reward: 0,
        lockup_term,
        is_end_reward: false,
        start_time: now,
        time_calc: now,
        end_time: if now + lockup_term.value > u64::MAX {
            u64::MAX
        } else {
            (now + lockup_term.value) as u64
        },
    }
}

/// Stakes the tokens `token_ids` from place `from` on, one after the other.
///
/// A token that the collection does not report as the sender's ends the
/// staking. Each other gets the next number of its term and a position that
/// starts at `now`; the position joins the term, its key joins the keys of
/// the staker, and the campaign counts one position more.
pub open spec fn stake_each(
    state: Staking,
    token_ids: Seq<String>,
    owners: Seq<Option<String>>,
    from: int,
    sender: String,
    lockup_term: LockupTerm,
    now: u64,
) -> Result<Staking, ContractError>
    decreases token_ids.len() - from,
{
    if from < 0 || from >= token_ids.len() {
        Ok(state)
    } else if !owned_by(owners, from, sender) {
        Err(ContractError::NotOwner { token_id: token_ids[from] })
    } else {
        let key = next_count(state.pool.number_of_nfts);
        let nft = new_position(key, token_ids[from], sender, lockup_term, now);
        stake_each(
            Staking {
                nfts: state.nfts.push(nft),
                pool: TermState {
                    term: stake(state.pool.term, nft.end_time, now),
                    number_of_nfts: key,
                    ..state.pool
                },
                keys: state.keys.push(NftKey { key, lockup_term: lockup_term.value }),
                total_nfts: next_count(state.total_nfts),
            },
            token_ids,
            owners,
            from + 1,
            sender,
            lockup_term,
            now,
        )
    }
}

/// What a staking leaves on record: the new positions, the account of the
/// staker, the pools, and the number of positions in the campaign.
#[derive(Clone, Debug, PartialEq, Eq)]
pub struct Staked {
    pub nfts: Vec<NftInfo>,
    pub staker: StakerRewardAssetInfo,
    pub terms: Vec<TermPool>,
    pub total_nfts: u64,
}

/// `Staked` as a plain value.
pub struct StakedState {
    pub nfts: Seq<NftInfo>,
    pub staker: StakerState,
    pub pools: Seq<TermState>,
    pub total_nfts: u64,
}

impl View for Staked {
    type V = StakedState;

    open spec fn view(&self) -> StakedState {
        StakedState {
            nfts: self.nfts@,
            staker: self.staker@,
            pools: pools_view(self.terms@),
            total_nfts: self.total_nfts,
        }
    }
}

/// Whether positions can be staked at `block_time`: the campaign has
/// started and has not ended.
pub open spec fn is_running(campaign_info: CampaignInfo, block_time: u64) -> bool {
    campaign_info.start_time <= block_time < campaign_info.end_time
}

/// What the staking of `token_ids` into the term of `lockup_term` seconds
/// comes to, or the reason for which it is rejected.
///
/// It is rejected where the campaign has no emission, where it would hold
/// more positions than it may, where it has no such term, where it has not
/// started or has ended, where the staker would hold more positions than one
/// may, where the term has no pool, and where a token is not the sender's,
/// in this order. The positions start at `block_time`.
pub open spec fn staked(
    campaign_info: CampaignInfo,
    total_nfts: u64,
    staker: Option<StakerState>,
    pools: Seq<TermState>,
    lockup_term: u64,
    token_ids: Seq<String>,
    sender: String,
    owners: Seq<Option<String>>,
    block_time: u64,
) -> Result<StakedState, ContractError> {
    let account = match staker {
        Some(account) => account,
        None => new_account(),
    };
    if campaign_info.reward_per_second == 0 {
        Err(ContractError::EmptyReward {  })
    } else if campaign_info.total_eligible != 0 && total_nfts + token_ids.len()
        > campaign_info.total_eligible {
        Err(ContractError::LimitPerCollection {  })
    } else {
        match first_where(campaign_info.lockup_term@, lasts(lockup_term)) {
            None => Err(ContractError::InvalidLockupTerm {  }),
            Some(t) => if !is_running(campaign_info, block_time) {
                Err(ContractError::InvalidTimeToStakeNft {  })
            } else if campaign_info.limit_per_staker > 0 && token_ids.len() + account.keys.len()
                > campaign_info.limit_per_staker {
                Err(ContractError::LimitPerStake {  })
            } else {
                match first_where(pools, is_pool_of(lockup_term)) {
                    None => Err(no_pool()),
                    Some(p) => match stake_each(
                        Staking {
                            nfts: Seq::empty(),
                            pool: pools[p],
                            keys: account.keys,
                            total_nfts,
                        },
                        token_ids,
                        owners,
                        0,
                        sender,
                        campaign_info.lockup_term@[t],
                        block_time,
                    ) {
                        Err(error) => Err(error),
                        Ok(done) => Ok(
                            StakedState {
                                nfts: done.nfts,
                                staker: StakerState { keys: done.keys, ..account },
                                pools: pools.update(p, done.pool),
                                total_nfts: done.total_nfts,
                            },
                        ),
                    },
                }
            },
        }
    }
}

/// Stakes tokens of the campaign's collection into a lock-up term.
///
/// `owners` holds, for each token in the order of the request, the owner
/// that the collection reports, or nothing where it reports none. Every
/// token must be the sender's. Positions can be staked only while the
/// campaign runs: from its start on, and before its end. `terms` holds the
/// pool of the term.
#[verifier::loop_isolation(false)]
pub fn execute_stake_nft(
    campaign_info: &CampaignInfo,
    total_nfts: u64,
    staker: Option<StakerRewardAssetInfo>,
    terms: Vec<TermPool>,
    stake_info: &NftStake,
    sender: &String,
    owners: &Vec<Option<String>>,
    block_time: u64,
) -> (joined: Result<Staked, ContractError>)
    ensures
        match staked(
            *campaign_info,
            total_nfts,
            account_view(staker),
            pools_view(terms@),
            stake_info.lockup_term,
            stake_info.token_ids@,
            *sender,
            owners@,
            block_time,
        ) {
            Ok(expected) => joined matches Ok(out) && out@ == expected,
            Err(error) => (joined matches Err(reason) && reason == error),
        },
{
    if campaign_info.reward_per_second == 0 {
        return Err(ContractError::EmptyReward {  });
    }
    let mut total_nfts = total_nfts;
    if campaign_info.total_eligible != 0 && total_nfts as u128 + stake_info.token_ids.len() as u128
        > campaign_info.total_eligible as u128 {
        return Err(ContractError::LimitPerCollection {  });
    }
    let lockup_term = match find_term(&campaign_info.lockup_term, stake_info.lockup_term) {
        None => {
            return Err(ContractError::InvalidLockupTerm {  });
        },
        Some(t) => {
            proof {
                lemma_first_where(
                    campaign_info.lockup_term@,
                    lasts(stake_info.lockup_term),
                );
            }
            campaign_info.lockup_term[t]
        },
    };
    let current_time: u64 = block_time;
    if current_time < campaign_info.start_time || campaign_info.end_time <= current_time {
        return Err(ContractError::InvalidTimeToStakeNft {  });
    }
    let mut staker_info = match staker {
        Some(account) => account,
        None => StakerRewardAssetInfo { keys: Vec::new(), reward_debt: 0, reward_claimed: 0 },
    };
    let ghost account = staker_info@;
    if campaign_info.limit_per_staker > 0 && stake_info.token_ids.len() as u128
        + staker_info.keys.len() as u128 > campaign_info.limit_per_staker as u128 {
        return Err(ContractError::LimitPerStake {  });
    }
    let place = match find_pool(&terms, stake_info.lockup_term) {
        None => {
            return Err(ContractError::Std(StdError::NotFound { kind: Record::Term }));
        },
        Some(place) => place,
    };
    let ghost pools = pools_view(terms@);
    let mut terms = terms;
    let pool = terms.remove(place);
    assert(pool@ == pools[place as int]);
    let mut nft_key = pool.number_of_nfts;
    let mut term_reward_rates = pool.reward_rates;
    let mut term_expiration_times = pool.expiration_times;
    let mut total_staking_by_term = pool.total_staking;
    let mut nfts: Vec<NftInfo> = Vec::new();
    let ghost start = Staking {
        nfts: Seq::empty(),
        pool: pools[place as int],
        keys: account.keys,
        total_nfts,
    };
    let mut i: usize = 0;
    while i < stake_info.token_ids.len()
        invariant
            i <= stake_info.token_ids.len(),
            staker_info.reward_debt == account.reward_debt,
            staker_info.reward_claimed == account.reward_claimed,
            stake_each(
                start,
                stake_info.token_ids@,
                owners@,
                0,
                *sender,
                lockup_term,
                current_time,
            ) == stake_each(
                Staking {
                    nfts: nfts@,
                    pool: TermState {
                        lockup_term: pool.lockup_term,
                        term: Term {
                            samples: term_reward_rates@,
                            total: total_staking_by_term,
                            expirations: term_expiration_times@,
                        },
                        number_of_nfts: nft_key,
                    },
                    keys: staker_info.keys@,
                    total_nfts,
                },
                stake_info.token_ids@,
                owners@,
                i as int,
                *sender,
                lockup_term,
                current_time,
            ),
        decreases stake_info.token_ids.len() - i,
    {
        nft_key = nft_key.saturating_add(1);
        let owned = i < owners.len() && match &owners[i] {
            Some(owner) => *owner == *sender,
            None => false,
        };
        if !owned {
            return Err(ContractError::NotOwner { token_id: stake_info.token_ids[i].clone() });
        }
        let nft_info = NftInfo {
            key: nft_key,
            token_id: stake_info.token_ids[i].clone(),
            owner: sender.clone(),
            pending_reward: 0,
            lockup_term,
            is_end_reward: false,
            start_time: current_time,
            time_calc: current_time,
            end_time: current_time.saturating_add(lockup_term.value),
        };
        let (new_term_expiration_times, new_term_reward_rates, new_total_staking_by_term) =
            stake_nft(
            term_expiration_times,
            term_reward_rates,
            total_staking_by_term,
            nft_info.duplicate(),
            current_time,
        );
        term_reward_rates = new_term_reward_rates;
        term_expiration_times = new_term_expiration_times;
        total_staking_by_term = new_total_staking_by_term;
        staker_info.keys.push(NftKey { key: nft_key, lockup_term: lockup_term.value });
        nfts.push(nft_info);
        total_nfts = total_nfts.saturating_add(1);
        i += 1;
    }
    terms.insert(
        place,
        TermPool {
            lockup_term: pool.lockup_term,
            reward_rates: term_reward_rates,
            total_staking: total_staking_by_term,
            expiration_times: term_expiration_times,
            number_of_nfts: nft_key,
        },
    );
    proof {
        let done = stake_each(
            start,
            stake_info.token_ids@,
            owners@,
            0,
            *sender,
            lockup_term,
            current_time,
        );
        assert(pools_view(terms@) =~= pools.update(place as int, done.unwrap().pool));
    }
    Ok(Staked { nfts, staker: staker_info, terms, total_nfts })
}

} // verus!
