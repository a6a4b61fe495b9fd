//! Positions join while the campaign runs, are locked for some time, and
//! stay in the campaign until their lock has run out or the campaign has
//! ended.

use vstd::prelude::*;
use crate::campaign::accrual::{accrual_end, lemma_accrued_nonnegative, settle_at};
use crate::campaign::contract::{
    campaign_time, integrate_in_pools, is_running, new_account, new_position, next_count,
    owned_by, stake_each, staked, Staking, unstaked,
};
use crate::campaign::curve::stake;
use crate::campaign::lookup::{first_where, is_pool_of, lasts, lemma_first_where};
use crate::campaign::state::{
    CampaignInfo, LockupTerm, NftInfo, NftKey, StakerState, TermState,
};
use crate::error::ContractError;

verus! {

/// Unstaking waits for the end of the lock: an open position of the sender
/// cannot be taken out while neither its lock has run out nor the campaign
/// has ended.
pub proof fn lemma_unstake_waits(
    campaign_info: CampaignInfo,
    nft: NftInfo,
    staker: Option<StakerState>,
    pools: Seq<TermState>,
    sender: String,
    unstake_info: NftKey,
    block_time: u64,
)
    requires
        nft.owner@ == sender@,
        !nft.is_end_reward,
        nft.time_calc <= nft.end_time,
        first_where(pools, is_pool_of(nft.lockup_term.value)) is Some,
        block_time < nft.end_time,
        block_time < campaign_info.end_time,
    ensures
        unstaked(campaign_info, Some(nft), staker, pools, sender, unstake_info, block_time)
            matches Err(reason) && reason == (ContractError::InvalidTimeToUnStake {  }),
{
}

/// Unstaking is open at the end of the lock: a position of the sender whose
/// lock has run out, or whose campaign has ended, can be taken out, and
/// what it has earned becomes reward debt of the staker.
pub proof fn lemma_unstake_opens(
    campaign_info: CampaignInfo,
    nft: NftInfo,
    staker: StakerState,
    pools: Seq<TermState>,
    sender: String,
    unstake_info: NftKey,
    block_time: u64,
)
    requires
        nft.owner@ == sender@,
        nft.time_calc <= nft.end_time,
        nft.time_calc <= campaign_info.end_time,
        first_where(pools, is_pool_of(nft.lockup_term.value)) is Some,
        block_time >= nft.end_time || block_time >= campaign_info.end_time,
    ensures
        unstaked(campaign_info, Some(nft), Some(staker), pools, sender, unstake_info, block_time)
            is Ok,
        ({
            let left = unstaked(
                campaign_info,
                Some(nft),
                Some(staker),
                pools,
                sender,
                unstake_info,
                block_time,
            ).unwrap();
            &&& left.0.is_end_reward
            &&& left.0.pending_reward >= nft.pending_reward
            &&& left.1.reward_debt >= staker.reward_debt
            &&& left.1.reward_claimed == staker.reward_claimed
        }),
{
    let now = campaign_time(block_time, campaign_info.end_time);
    let done = integrate_in_pools(
        nft,
        pools,
        now,
        campaign_info.end_time,
        campaign_info.reward_per_second,
    ).unwrap();
    if !nft.is_end_reward {
        let i = first_where(pools, is_pool_of(nft.lockup_term.value)).unwrap();
        let samples = settle_at(pools[i].term, now).samples;
        lemma_accrued_nonnegative(
            samples,
            samples.len() as int,
            nft.time_calc,
            accrual_end(nft, now),
            campaign_info.reward_per_second,
            nft.lockup_term.percent,
        );
    }
}

/// Staking waits for the start of the campaign and ends with it: a
/// staking before the campaign has started, or when it has ended, is
/// rejected, whatever else holds of it. The rejection is for the time where
/// the campaign has an emission, room for the positions, and the term.
pub proof fn lemma_stake_needs_running(
    campaign_info: CampaignInfo,
    total_nfts: u64,
    staker: Option<StakerState>,
    pools: Seq<TermState>,
    lockup_term: u64,
    token_ids: Seq<String>,
    sender: String,
    owners: Seq<Option<String>>,
    block_time: u64,
)
    requires
        block_time < campaign_info.start_time || campaign_info.end_time <= block_time,
    ensures
        staked(
            campaign_info,
            total_nfts,
            staker,
            pools,
            lockup_term,
            token_ids,
            sender,
            owners,
            block_time,
        ) is Err,
        campaign_info.reward_per_second != 0 && (campaign_info.total_eligible == 0 || total_nfts
            + token_ids.len() <= campaign_info.total_eligible) && first_where(
            campaign_info.lockup_term@,
            lasts(lockup_term),
        ) is Some ==> (staked(
            campaign_info,
            total_nfts,
            staker,
            pools,
            lockup_term,
            token_ids,
            sender,
            owners,
            block_time,
        ) matches Err(reason) && reason == (ContractError::InvalidTimeToStakeNft {  })),
{
}

/// The position is new at `now` and locked into `lockup_term`: it is open,
/// has no pending reward, starts and is accrued up to `now`, and its lock
/// ends later.
pub open spec fn is_new_position(nft: NftInfo, lockup_term: LockupTerm, now: u64) -> bool {
    &&& !nft.is_end_reward
    &&& nft.pending_reward == 0
    &&& nft.start_time == now
    &&& nft.time_calc == now
    &&& now < nft.end_time
    &&& nft.lockup_term == lockup_term
}

/// The positions that a staking into a term that lasts some time creates
/// are new.
proof fn lemma_stake_each_new(
    state: Staking,
    token_ids: Seq<String>,
    owners: Seq<Option<String>>,
    from: int,
    sender: String,
    lockup_term: LockupTerm,
    now: u64,
)
    requires
        lockup_term.value > 0,
        now < u64::MAX,
        forall|i: int|
            0 <= i < state.nfts.len() ==> is_new_position(
                #[trigger] state.nfts[i],
                lockup_term,
                now,
            ),
    ensures
        stake_each(state, token_ids, owners, from, sender, lockup_term, now) matches Ok(done)
            ==> forall|i: int|
            0 <= i < done.nfts.len() ==> is_new_position(
                #[trigger] done.nfts[i],
                lockup_term,
                now,
            ),
    decreases token_ids.len() - from,
{
    if 0 <= from < token_ids.len() && owned_by(owners, from, sender) {
        let key = next_count(state.pool.number_of_nfts);
        let nft = new_position(
            key,
            token_ids[from],
            sender,
            lockup_term,
            now,
        );
        let next = Staking {
            nfts: state.nfts.push(nft),
            pool: TermState {
                term: stake(state.pool.term, nft.end_time, now),
                number_of_nfts: key,
                ..state.pool
            },
            keys: state.keys.push(NftKey { key, lockup_term: lockup_term.value }),
            total_nfts: next_count(state.total_nfts),
        };
        assert forall|i: int| 0 <= i < next.nfts.len() implies is_new_position(
            #[trigger] next.nfts[i],
            lockup_term,
            now,
        ) by {
            if i < state.nfts.len() {
                assert(next.nfts[i] == state.nfts[i]);
            }
        }
        lemma_stake_each_new(next, token_ids, owners, from + 1, sender, lockup_term, now);
    }
}

/// Positions are staked while the campaign runs, and are locked for some
/// time: where a staking into a well-formed campaign goes through, the
/// campaign has started and has not ended, and every position that it
/// creates is new at the time of the staking, with one of the campaign's
/// terms and with a lock that ends later.
pub proof fn lemma_staked_positions_new(
    campaign_info: CampaignInfo,
    total_nfts: u64,
    staker: Option<StakerState>,
    pools: Seq<TermState>,
    lockup_term: u64,
    token_ids: Seq<String>,
    sender: String,
    owners: Seq<Option<String>>,
    block_time: u64,
)
    requires
        campaign_info.wf(),
        staked(
            campaign_info,
            total_nfts,
            staker,
            pools,
            lockup_term,
            token_ids,
            sender,
            owners,
            block_time,
        ) is Ok,
    ensures
        is_running(campaign_info, block_time),
        ({
            let out = staked(
                campaign_info,
                total_nfts,
                staker,
                pools,
                lockup_term,
                token_ids,
                sender,
                owners,
                block_time,
            ).unwrap();
            let t = first_where(campaign_info.lockup_term@, lasts(lockup_term)).unwrap();
            &&& 0 <= t < campaign_info.lockup_term@.len()
            &&& forall|i: int|
                0 <= i < out.nfts.len() ==> is_new_position(
                    #[trigger] out.nfts[i],
                    campaign_info.lockup_term@[t],
                    block_time,
                )
        }),
{
    lemma_first_where(campaign_info.lockup_term@, lasts(lockup_term));
    let t = first_where(campaign_info.lockup_term@, lasts(lockup_term)).unwrap();
    let p = first_where(pools, is_pool_of(lockup_term)).unwrap();
    let account = match staker {
        Some(account) => account,
        None => new_account(),
    };
    lemma_stake_each_new(
        Staking { nfts: Seq::empty(), pool: pools[p], keys: account.keys, total_nfts },
        token_ids,
        owners,
        0,
        sender,
        campaign_info.lockup_term@[t],
        block_time,
    );
}

} // verus!
