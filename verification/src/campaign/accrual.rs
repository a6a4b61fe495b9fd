//! What a position earns: the integral of its share of a term's emission
//! over the term's curve.
//!
//! On a segment of the curve with `rate` active positions, one position
//! earns `duration * reward_per_second * percent / rate / 100`, each division
//! rounded down in that order and each product cut off at the largest
//! amount. A segment without active positions earns nothing.

use vstd::prelude::*;
use crate::math::saturate;
use super::curve::{record, settle, Term};
use super::state::{NftInfo, RewardRate};

verus! {

/// What one position earns in `duration` seconds while `rate` positions
/// share `percent` hundredths of `reward_per_second`.
pub open spec fn segment_reward(duration: int, reward_per_second: u128, percent: u128, rate: u64) -> int {
    if rate == 0 {
        0
    } else {
        saturate(saturate(duration * reward_per_second) * percent) / (rate as int) / 100
    }
}

/// Where the segment that starts with sample `i` ends for an accrual up to
/// `end`: at the next sample, but not behind `end`.
pub open spec fn segment_end(samples: Seq<RewardRate>, i: int, end: u64) -> int {
    if i + 1 < samples.len() && samples[i + 1].timestamp < end {
        samples[i + 1].timestamp as int
    } else {
        end as int
    }
}

/// What sample `i` adds to an accrual from `start` to `end`: the reward of
/// its segment where the sample lies within the two, else nothing.
pub open spec fn sample_reward(
    samples: Seq<RewardRate>,
    i: int,
    start: u64,
    end: u64,
    reward_per_second: u128,
    percent: u128,
) -> int {
    if start <= samples[i].timestamp <= end {
        segment_reward(
            segment_end(samples, i, end) - samples[i].timestamp,
            reward_per_second,
            percent,
            samples[i].rate,
        )
    } else {
        0
    }
}

/// The sum of what the first `n` samples add to an accrual from `start` to
/// `end`.
pub open spec fn accrued_upto(
    samples: Seq<RewardRate>,
    n: int,
    start: u64,
    end: u64,
    reward_per_second: u128,
    percent: u128,
) -> int
    decreases n,
{
    if n <= 0 {
        0
    } else {
        accrued_upto(samples, n - 1, start, end, reward_per_second, percent) + sample_reward(
            samples,
            n - 1,
            start,
            end,
            reward_per_second,
            percent,
        )
    }
}

/// What a position earns from `start` to `end` on the curve `samples`.
pub open spec fn accrued(
    samples: Seq<RewardRate>,
    start: u64,
    end: u64,
    reward_per_second: u128,
    percent: u128,
) -> int {
    accrued_upto(samples, samples.len() as int, start, end, reward_per_second, percent)
}

/// The time up to which a position accrues at `now`: `now`, but not behind
/// the end of its lock.
pub open spec fn accrual_end(nft: NftInfo, now: u64) -> u64 {
    if now < nft.end_time {
        now
    } else {
        nft.end_time
    }
}

/// The position after its reward was accrued up to `now` on the curve
/// `samples`. A position whose accrual time lies behind `now` stays as it is.
/// Else what it earned since its accrual time is added to its pending
/// reward, its accrual time moves to the end of the accrual, and it is
/// closed where its lock has run out or the campaign has ended.
pub open spec fn accrue(
    nft: NftInfo,
    samples: Seq<RewardRate>,
    now: u64,
    campaign_end: u64,
    reward_per_second: u128,
) -> NftInfo {
    if now < nft.time_calc {
        nft
    } else {
        let end = accrual_end(nft, now);
        NftInfo {
            pending_reward: saturate(
                nft.pending_reward + accrued(
                    samples,
                    nft.time_calc,
                    end,
                    reward_per_second,
                    nft.lockup_term.percent,
                ),
            ) as u128,
            time_calc: end,
            is_end_reward: nft.is_end_reward || end == nft.end_time || now >= campaign_end,
            ..nft
        }
    }
}

/// The term as an integration at `now` leaves it: settled at `now`, with
/// its total recorded at `now`.
pub open spec fn settle_at(term: Term, now: u64) -> Term {
    record(settle(term, now), now, 0)
}

/// A position and its term after the integration at `now`. A closed
/// position and its term stay as they are. Else the term is settled at
/// `now`, and the position accrues on the settled curve.
pub open spec fn integrate(
    nft: NftInfo,
    term: Term,
    now: u64,
    campaign_end: u64,
    reward_per_second: u128,
) -> (NftInfo, Term) {
    if nft.is_end_reward {
        (nft, term)
    } else {
        let settled = settle_at(term, now);
        (accrue(nft, settled.samples, now, campaign_end, reward_per_second), settled)
    }
}

/// What a term owes for the segment from the sample `current` to the
/// sample `next`: its share of the emission over the length of the segment,
/// where positions were active. The positions of the segment together earn
/// no more than that.
pub open spec fn segment_liability(
    current: RewardRate,
    next: RewardRate,
    reward_per_second: u128,
    percent: u128,
) -> int {
    if current.rate != 0 && next.timestamp > current.timestamp {
        saturate(saturate((next.timestamp - current.timestamp) * reward_per_second) * percent)
            / 100
    } else {
        0
    }
}

/// What a term owes for the first `n` segments of its curve.
pub open spec fn liability_upto(
    samples: Seq<RewardRate>,
    n: int,
    reward_per_second: u128,
    percent: u128,
) -> int
    decreases n,
{
    if n <= 0 {
        0
    } else {
        liability_upto(samples, n - 1, reward_per_second, percent) + segment_liability(
            samples[n - 1],
            samples[n],
            reward_per_second,
            percent,
        )
    }
}

/// What a term owes for its curve: the sum over the segments between its
/// samples.
pub open spec fn curve_liability(
    samples: Seq<RewardRate>,
    reward_per_second: u128,
    percent: u128,
) -> int {
    liability_upto(samples, samples.len() - 1, reward_per_second, percent)
}

/// No curve owes a negative amount.
pub proof fn lemma_liability_nonnegative(
    samples: Seq<RewardRate>,
    n: int,
    reward_per_second: u128,
    percent: u128,
)
    ensures
        0 <= liability_upto(samples, n, reward_per_second, percent),
    decreases n,
{
    if n > 0 {
        lemma_liability_nonnegative(samples, n - 1, reward_per_second, percent);
    }
}

/// No segment earns a negative reward.
pub proof fn lemma_segment_reward_bounds(
    duration: int,
    reward_per_second: u128,
    percent: u128,
    rate: u64,
)
    ensures
        0 <= segment_reward(duration, reward_per_second, percent, rate) <= u128::MAX,
{
    if rate != 0 {
        let product = saturate(saturate(duration * reward_per_second) * percent);
        assert(0 <= product / (rate as int) <= product) by (nonlinear_arith)
            requires
                product >= 0,
                rate > 0,
        ;
    }
}

/// No accrual is negative.
pub proof fn lemma_accrued_nonnegative(
    samples: Seq<RewardRate>,
    n: int,
    start: u64,
    end: u64,
    reward_per_second: u128,
    percent: u128,
)
    requires
        n <= samples.len(),
    ensures
        0 <= accrued_upto(samples, n, start, end, reward_per_second, percent),
    decreases n,
{
    if n > 0 {
        lemma_accrued_nonnegative(samples, n - 1, start, end, reward_per_second, percent);
        lemma_segment_reward_bounds(
            segment_end(samples, n - 1, end) - samples[n - 1].timestamp,
            reward_per_second,
            percent,
            samples[n - 1].rate,
        );
    }
}

} // verus!
