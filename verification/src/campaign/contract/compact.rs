//! Compacting the curves of a campaign.

use vstd::prelude::*;
use crate::campaign::accrual::{curve_liability, integrate, lemma_liability_nonnegative};
use crate::campaign::curve::Term;
use crate::campaign::lookup::{find_pool, first_where, is_pool_of, lemma_first_where};
use crate::campaign::state::{
    CampaignInfo, Config, LockupTerm, NftInfo, pools_view, RewardRate, TermPool, TermState,
};
use crate::campaign::utils::calculate_reward;
use crate::error::{ContractError, Record, StdError};
use crate::math::saturate;
use super::shared::{campaign_time, clamp_time, no_pool};
use super::withdraw::add_curve_liability;

verus! {

/// Whether a position is one of the first `count` of the term of
/// `lockup_term` seconds.
pub open spec fn in_term(nft: NftInfo, lockup_term: u64, count: u64) -> bool {
    nft.lockup_term.value == lockup_term && 1 <= nft.key <= count
}

/// Integrates, from place `from` on, the positions among `nfts` that are
/// among the first `count` of the term of `lockup_term` seconds, one after
/// the other, each on the term that the one before it left.
pub open spec fn integrate_term(
    nfts: Seq<NftInfo>,
    term: Term,
    lockup_term: u64,
    count: u64,
    from: int,
    now: u64,
    campaign_end: u64,
    reward_per_second: u128,
) -> (Seq<NftInfo>, Term)
    decreases nfts.len() - from,
{
    if from < 0 || from >= nfts.len() {
        (nfts, term)
    } else if in_term(nfts[from], lockup_term, count) {
        let done = integrate(nfts[from], term, now, campaign_end, reward_per_second);
        integrate_term(
            nfts.update(from, done.0),
            done.1,
            lockup_term,
            count,
            from + 1,
            now,
            campaign_end,
            reward_per_second,
        )
    } else {
        integrate_term(
            nfts,
            term,
            lockup_term,
            count,
            from + 1,
            now,
            campaign_end,
            reward_per_second,
        )
    }
}

/// The last sample of a curve alone; an empty curve stays empty.
pub open spec fn last_sample(samples: Seq<RewardRate>) -> Seq<RewardRate> {
    if samples.len() == 0 {
        samples
    } else {
        seq![samples.last()]
    }
}

/// The state of a compaction: the positions and pools on record, and what
/// the campaign owed on the curves that were compacted.
pub struct Compacting {
    pub nfts: Seq<NftInfo>,
    pub pools: Seq<TermState>,
    pub owed: int,
}

/// Compacts the curves of `terms`, one after the other.
///
/// The positions of a term are integrated at `now`. What the term owes for
/// its curve, as the integrations leave it, is added to what the campaign
/// owed, and the curve is cut down to its last sample. A term without pool
/// ends the compaction.
pub open spec fn compact_each(
    state: Compacting,
    terms: Seq<LockupTerm>,
    now: u64,
    campaign_end: u64,
    reward_per_second: u128,
) -> Option<Compacting>
    decreases terms.len(),
{
    if terms.len() == 0 {
        Some(state)
    } else {
        let term = terms.first();
        match first_where(state.pools, is_pool_of(term.value)) {
            None => None,
            Some(p) => {
                let pool = state.pools[p];
                let done = integrate_term(
                    state.nfts,
                    pool.term,
                    term.value,
                    pool.number_of_nfts,
                    0,
                    now,
                    campaign_end,
                    reward_per_second,
                );
                compact_each(
                    Compacting {
                        nfts: done.0,
                        pools: state.pools.update(
                            p,
                            TermState {
                                term: Term { samples: last_sample(done.1.samples), ..done.1 },
                                ..pool
                            },
                        ),
                        owed: state.owed + curve_liability(
                            done.1.samples,
                            reward_per_second,
                            term.percent,
                        ),
                    },
                    terms.drop_first(),
                    now,
                    campaign_end,
                    reward_per_second,
                )
            },
        }
    }
}

/// What a compaction leaves on record.
#[derive(Clone, Debug, PartialEq, Eq)]
pub struct Compacted {
    pub nfts: Vec<NftInfo>,
    pub terms: Vec<TermPool>,
    pub previous_total_reward: u128,
}

/// `Compacted` as a plain value.
pub struct CompactedState {
    pub nfts: Seq<NftInfo>,
    pub pools: Seq<TermState>,
    pub previous_total_reward: u128,
}

impl View for Compacted {
    type V = CompactedState;

    open spec fn view(&self) -> CompactedState {
        CompactedState {
            nfts: self.nfts@,
            pools: pools_view(self.terms@),
            previous_total_reward: self.previous_total_reward,
        }
    }
}

/// What a compaction comes to, or the reason for which it is rejected.
/// Only the administrator may compact.
pub open spec fn compacted(
    config: Config,
    campaign_info: CampaignInfo,
    pools: Seq<TermState>,
    nfts: Seq<NftInfo>,
    previous_total_reward: u128,
    sender: String,
    block_time: u64,
) -> Result<CompactedState, ContractError> {
    if sender@ != config.admin@ {
        Err(ContractError::Unauthorized {  })
    } else {
        match compact_each(
            Compacting { nfts, pools, owed: previous_total_reward as int },
            campaign_info.lockup_term@,
            campaign_time(block_time, campaign_info.end_time),
            campaign_info.end_time,
            campaign_info.reward_per_second,
        ) {
            None => Err(no_pool()),
            Some(done) => Ok(
                CompactedState {
                    nfts: done.nfts,
                    pools: done.pools,
                    previous_total_reward: saturate(done.owed) as u128,
                },
            ),
        }
    }
}

/// Integrates the positions of one term, each on the term that the one
/// before it left.
fn integrate_positions(
    nfts: Vec<NftInfo>,
    pool: TermPool,
    now: u64,
    campaign_end: u64,
    reward_per_second: u128,
) -> (done: (Vec<NftInfo>, TermPool))
    ensures
        (done.0@, done.1@.term) == integrate_term(
            nfts@,
            pool@.term,
            pool.lockup_term,
            pool.number_of_nfts,
            0,
            now,
            campaign_end,
            reward_per_second,
        ),
        done.1.lockup_term == pool.lockup_term,
        done.1.number_of_nfts == pool.number_of_nfts,
{
    let ghost start = (nfts@, pool@.term);
    let lockup_term = pool.lockup_term;
    let count = pool.number_of_nfts;
    let mut nfts = nfts;
    let mut term_reward_rates = pool.reward_rates;
    let mut expiration_times = pool.expiration_times;
    let mut total_staking = pool.total_staking;
    let mut i: usize = 0;
    while i < nfts.len()
        invariant
            i <= nfts.len(),
            integrate_term(
                start.0,
                start.1,
                lockup_term,
                count,
                0,
                now,
                campaign_end,
                reward_per_second,
            ) == integrate_term(
                nfts@,
                Term {
                    samples: term_reward_rates@,
                    total: total_staking,
                    expirations: expiration_times@,
                },
                lockup_term,
                count,
                i as int,
                now,
                campaign_end,
                reward_per_second,
            ),
        decreases nfts.len() - i,
    {
        if nfts[i].lockup_term.value == lockup_term && 1 <= nfts[i].key && nfts[i].key <= count {
            let (new_nft_info, new_term_reward_rates, new_total_staking, new_expiration_times) =
                calculate_reward(
                nfts[i].duplicate(),
                term_reward_rates,
                expiration_times,
                total_staking,
                now,
                campaign_end,
                reward_per_second,
            );
            term_reward_rates = new_term_reward_rates;
            total_staking = new_total_staking;
            expiration_times = new_expiration_times;
            nfts.set(i, new_nft_info);
        }
        i += 1;
    }
    (
        nfts,
        TermPool {
            lockup_term,
            reward_rates: term_reward_rates,
            total_staking,
            expiration_times,
            number_of_nfts: count,
        },
    )
}

/// Compacts the curves of the campaign.
///
/// For each lock-up term, the positions of the term among `nfts` are
/// integrated at the campaign's time. What the term owes for the curve that
/// the integrations leave is added to the campaign's total of compacted
/// reward, and the curve is cut down to its last sample: once every position
/// was integrated past the earlier samples, they are needed no more.
#[verifier::loop_isolation(false)]
pub fn execute_reset_pool(
    config: &Config,
    campaign_info: &CampaignInfo,
    terms: Vec<TermPool>,
    nfts: Vec<NftInfo>,
    previous_total_reward: u128,
    sender: &String,
    block_time: u64,
) -> (reset: Result<Compacted, ContractError>)
    ensures
        match compacted(
            *config,
            *campaign_info,
            pools_view(terms@),
            nfts@,
            previous_total_reward,
            *sender,
            block_time,
        ) {
            Ok(expected) => reset matches Ok(out) && out@ == expected,
            Err(error) => (reset matches Err(reason) && reason == error),
        },
{
    if *sender != config.admin {
        return Err(ContractError::Unauthorized {  });
    }
    let current_time = clamp_time(block_time, campaign_info.end_time);
    let mut current_total_reward = previous_total_reward;
    let ghost mut exact: int = previous_total_reward as int;
    let ghost start = Compacting {
        nfts: nfts@,
        pools: pools_view(terms@),
        owed: previous_total_reward as int,
    };
    let mut terms = terms;
    let mut nfts = nfts;
    let mut i: usize = 0;
    proof {
        assert(campaign_info.lockup_term@.skip(0) =~= campaign_info.lockup_term@);
    }
    while i < campaign_info.lockup_term.len()
        invariant
            i <= campaign_info.lockup_term.len(),
            exact >= 0,
            current_total_reward == saturate(exact),
            compact_each(
                start,
                campaign_info.lockup_term@,
                current_time,
                campaign_info.end_time,
                campaign_info.reward_per_second,
            ) == compact_each(
                Compacting { nfts: nfts@, pools: pools_view(terms@), owed: exact },
                campaign_info.lockup_term@.skip(i as int),
                current_time,
                campaign_info.end_time,
                campaign_info.reward_per_second,
            ),
        decreases campaign_info.lockup_term.len() - i,
    {
        let term = campaign_info.lockup_term[i];
        proof {
            assert(campaign_info.lockup_term@.skip(i as int).first() == term);
            assert(campaign_info.lockup_term@.skip(i as int).drop_first()
                =~= campaign_info.lockup_term@.skip(i + 1));
        }
        let place = match find_pool(&terms, term.value) {
            None => {
                return Err(ContractError::Std(StdError::NotFound { kind: Record::Term }));
            },
            Some(place) => place,
        };
        let ghost pools = pools_view(terms@);
        let pool = terms.remove(place);
        assert(pool@ == pools[place as int]);
        proof {
            lemma_first_where(pools, is_pool_of(term.value));
        }
        let (integrated, pool) = integrate_positions(
            nfts,
            pool,
            current_time,
            campaign_info.end_time,
            campaign_info.reward_per_second,
        );
        nfts = integrated;
        current_total_reward = add_curve_liability(
            current_total_reward,
            &pool.reward_rates,
            campaign_info.reward_per_second,
            term.percent,
            Ghost(exact),
        );
        proof {
            lemma_liability_nonnegative(
                pool.reward_rates@,
                pool.reward_rates@.len() - 1,
                campaign_info.reward_per_second,
                term.percent,
            );
            exact = exact + curve_liability(
                pool.reward_rates@,
                campaign_info.reward_per_second,
                term.percent,
            );
        }
        let mut updated_term_reward_rates: Vec<RewardRate> = Vec::new();
        if pool.reward_rates.len() > 0 {
            updated_term_reward_rates.push(pool.reward_rates[pool.reward_rates.len() - 1]);
        }
        let ghost full = pool@;
        terms.insert(
            place,
            TermPool {
                lockup_term: pool.lockup_term,
                reward_rates: updated_term_reward_rates,
                total_staking: pool.total_staking,
                expiration_times: pool.expiration_times,
                number_of_nfts: pool.number_of_nfts,
            },
        );
        proof {
            assert(updated_term_reward_rates@ =~= last_sample(full.term.samples));
            assert(pools_view(terms@) =~= pools.update(
                place as int,
                TermState {
                    term: Term { samples: last_sample(full.term.samples), ..full.term },
                    ..pools[place as int]
                },
            ));
        }
        i += 1;
    }
    Ok(Compacted { nfts, terms, previous_total_reward: current_total_reward })
}

} // verus!
