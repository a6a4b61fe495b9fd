//! What every operation keeps: a curve stays well formed, and a position
//! only moves forward.

use vstd::prelude::*;
use crate::campaign::accrual::{accrual_end, integrate, lemma_accrued_nonnegative, settle_at};
use crate::campaign::contract::{pending_reward, withdrawn};
use crate::campaign::curve::{
    curve_wf, lemma_curve_after_wf, lemma_settle_wf, new_total, record, settle, stake, Term,
};
use crate::campaign::state::{CampaignInfo, NftInfo, TermState};

verus! {

/// Recording a change keeps a curve well formed.
pub proof fn lemma_record_wf(term: Term, timestamp: u64, change: int)
    requires
        curve_wf(term.samples),
    ensures
        curve_wf(record(term, timestamp, change).samples),
{
    lemma_curve_after_wf(term.samples, timestamp, new_total(term.total, change));
}

/// Staking keeps a curve well formed.
pub proof fn lemma_stake_wf(term: Term, end_time: u64, timestamp: u64)
    requires
        curve_wf(term.samples),
    ensures
        curve_wf(stake(term, end_time, timestamp).samples),
{
    lemma_settle_wf(term, timestamp);
    let settled = settle(term, timestamp);
    lemma_record_wf(
        Term { expirations: settled.expirations.push(end_time), ..settled },
        timestamp,
        1,
    );
}

/// Integration keeps a curve well formed.
pub proof fn lemma_integrate_wf(
    nft: NftInfo,
    term: Term,
    now: u64,
    campaign_end: u64,
    reward_per_second: u128,
)
    requires
        curve_wf(term.samples),
    ensures
        curve_wf(integrate(nft, term, now, campaign_end, reward_per_second).1.samples),
{
    lemma_settle_wf(term, now);
    lemma_record_wf(settle(term, now), now, 0);
}

/// A position only moves forward: an integration never lowers its pending
/// reward or its accrual time, never takes the accrual time behind the end
/// of its lock, and never opens a closed position again. A position that
/// has reached the end of its lock is closed.
pub proof fn lemma_integrate_forward(
    nft: NftInfo,
    term: Term,
    now: u64,
    campaign_end: u64,
    reward_per_second: u128,
)
    requires
        nft.wf(),
    ensures
        ({
            let after = integrate(nft, term, now, campaign_end, reward_per_second).0;
            &&& after.wf()
            &&& after.pending_reward >= nft.pending_reward
            &&& after.time_calc >= nft.time_calc
            &&& nft.is_end_reward ==> after == nft
            &&& after.is_end_reward || (after.time_calc < after.end_time && now < campaign_end)
                || now < nft.time_calc
            &&& after.key == nft.key && after.token_id == nft.token_id && after.owner == nft.owner
                && after.lockup_term == nft.lockup_term && after.start_time == nft.start_time
                && after.end_time == nft.end_time
        }),
{
    if !nft.is_end_reward && now >= nft.time_calc {
        let samples = settle_at(term, now).samples;
        lemma_accrued_nonnegative(
            samples,
            samples.len() as int,
            nft.time_calc,
            accrual_end(nft, now),
            reward_per_second,
            nft.lockup_term.percent,
        );
    }
}

/// A position is never accrued past the end of its campaign: where it is
/// accrued up to a time not behind the end of the campaign, an integration
/// at a time not behind that end leaves it so. Positions start while the
/// campaign runs, and operations integrate at the campaign's time, which is
/// never behind the end.
pub proof fn lemma_integrate_within_campaign(
    nft: NftInfo,
    term: Term,
    now: u64,
    campaign_end: u64,
    reward_per_second: u128,
)
    requires
        nft.time_calc <= campaign_end,
        now <= campaign_end,
    ensures
        integrate(nft, term, now, campaign_end, reward_per_second).0.time_calc <= campaign_end,
{
}

/// A withdrawal leaves in the balance what the campaign owes: what is
/// released and what is owed together are no more than the balance, unless
/// the balance does not cover what is owed, and then nothing is released.
pub proof fn lemma_withdraw_keeps_owed(
    campaign_info: CampaignInfo,
    pools: Seq<TermState>,
    previous_total_reward: u128,
    sender: String,
    block_time: u64,
)
    requires
        withdrawn(campaign_info, pools, previous_total_reward, sender, block_time) is Ok,
    ensures
        ({
            let released = withdrawn(
                campaign_info,
                pools,
                previous_total_reward,
                sender,
                block_time,
            ).unwrap().1;
            let owed = pending_reward(
                campaign_info,
                pools,
                previous_total_reward,
                campaign_info.end_time,
            ).unwrap();
            &&& released <= campaign_info.reward_token.amount
            &&& owed <= campaign_info.reward_token.amount ==> released + owed
                == campaign_info.reward_token.amount
            &&& owed > campaign_info.reward_token.amount ==> released == 0
        }),
{
}

} // verus!
