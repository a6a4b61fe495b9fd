//! Integration is idempotent at a fixed time.

use vstd::prelude::*;
use crate::campaign::accrual::{accrual_end, accrued_upto, integrate, segment_end, settle_at};
use crate::campaign::curve::{
    by_timestamp, curve_wf, due_times, is_due, is_pending, lemma_curve_after_ascending,
    lemma_curve_after_holds, lemma_curve_after_same, lemma_curve_after_wf, lemma_settle_wf,
    pending_times, settle, Term,
};
use crate::campaign::sorting::ascending;
use crate::campaign::state::{NftInfo, RewardRate};
use crate::math::saturate;

verus! {


/// Of the expirations that lie behind a time, none has run out at that time
/// and all lie behind it.
proof fn lemma_pending_settled(expirations: Seq<u64>, as_of: u64)
    ensures
        pending_times(expirations, as_of).filter(is_due(as_of)) == Seq::<u64>::empty(),
        pending_times(pending_times(expirations, as_of), as_of) == pending_times(
            expirations,
            as_of,
        ),
    decreases expirations.len(),
{
    reveal(Seq::filter);
    if expirations.len() > 0 {
        let front = expirations.drop_last();
        let last = expirations.last();
        lemma_pending_settled(front, as_of);
        let kept = pending_times(front, as_of);
        if last > as_of {
            assert(pending_times(expirations, as_of) == kept.push(last));
            kept.lemma_filter_push(last, is_due(as_of));
            kept.lemma_filter_push(last, is_pending(as_of));
        }
    }
}

/// An accrual over no time earns nothing on an ascending curve.
proof fn lemma_accrued_nothing(
    samples: Seq<RewardRate>,
    n: int,
    at: u64,
    reward_per_second: u128,
    percent: u128,
)
    requires
        ascending(samples, by_timestamp()),
        0 <= n <= samples.len(),
    ensures
        accrued_upto(samples, n, at, at, reward_per_second, percent) == 0,
    decreases n,
{
    if n > 0 {
        lemma_accrued_nothing(samples, n - 1, at, reward_per_second, percent);
        if samples[n - 1].timestamp == at {
            assert(segment_end(samples, n - 1, at) == at);
            assert(saturate(saturate(0 * reward_per_second) * percent) == 0) by (nonlinear_arith);
            let rate = samples[n - 1].rate as int;
            if rate != 0 {
                assert(0int / rate / 100 == 0) by (nonlinear_arith)
                    requires
                        rate > 0,
                ;
            }
        }
    }
}

/// Settling a term a second time at the same time changes nothing.
pub proof fn lemma_settle_at_idempotent(term: Term, now: u64)
    requires
        curve_wf(term.samples),
    ensures
        settle_at(settle_at(term, now), now) == settle_at(term, now),
        curve_wf(settle_at(term, now).samples),
{
    let settled = settle(term, now);
    lemma_settle_wf(term, now);
    let once = settle_at(term, now);
    let i = lemma_curve_after_holds(settled.samples, now, settled.total);
    lemma_curve_after_wf(settled.samples, now, settled.total);
    lemma_pending_settled(term.expirations, now);
    assert(once.expirations == settled.expirations);
    assert(due_times(once.expirations, now) =~= Seq::<u64>::empty());
    assert(settle(once, now) == once);
    lemma_curve_after_same(once.samples, now, once.total, i);
}

/// Integration is idempotent at a fixed time: integrating a position a
/// second time at the same time, on the term that the first integration
/// left, changes neither the position nor the term.
pub proof fn lemma_integrate_idempotent(
    nft: NftInfo,
    term: Term,
    now: u64,
    campaign_end: u64,
    reward_per_second: u128,
)
    requires
        curve_wf(term.samples),
    ensures
        ({
            let first = integrate(nft, term, now, campaign_end, reward_per_second);
            integrate(first.0, first.1, now, campaign_end, reward_per_second) == first
        }),
{
    let first = integrate(nft, term, now, campaign_end, reward_per_second);
    if !nft.is_end_reward && !first.0.is_end_reward {
        lemma_settle_at_idempotent(term, now);
        let settled = settle_at(term, now);
        if now >= nft.time_calc {
            let end = accrual_end(nft, now);
            lemma_curve_after_ascending(settle(term, now).samples, now, settle(term, now).total);
            lemma_accrued_nothing(
                settled.samples,
                settled.samples.len() as int,
                end,
                reward_per_second,
                nft.lockup_term.percent,
            );
        }
    }
}

} // verus!
