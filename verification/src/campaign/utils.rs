//! The accrual engine: the operations on a term's curve and the integration
//! of a position's reward over it.

use vstd::prelude::*;
use crate::math::{
    AmountError, checked_add, checked_div, checked_mul, checked_sub, max_amount, saturate,
    saturating_add, saturating_mul,
};
use super::accrual::{
    accrued, accrued_upto, integrate, lemma_accrued_nonnegative, lemma_segment_reward_bounds,
    segment_end,
};
use super::curve::{
    by_time, by_timestamp, curve_after, curve_wf, due_times, expire_all, is_due, is_first_sample,
    is_pending, lemma_curve_after_ascending, lemma_curve_after_wf, lemma_settle_wf,
    lemma_upsert_absent, lemma_upsert_found, new_total, pending_times, settle, sort_samples, stake,
    Term,
};
use super::laws::invariants::{lemma_integrate_forward, lemma_integrate_wf, lemma_stake_wf};
use super::sorting::{ascending, insert_by_key, lemma_insert_at};
use super::state::{NftInfo, RewardRate};

verus! {

/// A reward with `calc_reward` added, or `Overflow` where the sum does not
/// fit.
pub fn add_reward(current_reward: u128, calc_reward: u128) -> (sum: Result<u128, AmountError>)
    ensures
        match sum {
            Ok(reward) => reward == current_reward + calc_reward,
            Err(reason) => current_reward + calc_reward > max_amount() && reason
                == AmountError::Overflow,
        },
{
    checked_add(current_reward, calc_reward)
}

/// A reward with `calc_reward` taken off, or `Overflow` where more would
/// be taken than there is.
pub fn sub_reward(current_reward: u128, calc_reward: u128) -> (difference: Result<
    u128,
    AmountError,
>)
    ensures
        match difference {
            Ok(reward) => reward == current_reward - calc_reward,
            Err(reason) => current_reward < calc_reward && reason == AmountError::Overflow,
        },
{
    checked_sub(current_reward, calc_reward)
}

/// What one of `nft_count` positions earns from `start_time` to `end_time`
/// where they share `percent` hundredths of `reward_per_second`: the
/// emission of that time, times the share, divided by a hundred times the
/// number of positions, rounded down once. `DivideByZero` where there is no
/// position.
pub fn calc_reward_in_time(
    start_time: u64,
    end_time: u64,
    reward_per_second: u128,
    percent: u128,
    nft_count: u128,
) -> (share: Result<u128, AmountError>)
    requires
        start_time <= end_time,
        (end_time - start_time) * reward_per_second <= max_amount(),
        (end_time - start_time) * reward_per_second * percent <= max_amount(),
        100 * nft_count <= max_amount(),
    ensures
        match share {
            Ok(reward) => nft_count != 0 && reward == ((end_time - start_time)
                * reward_per_second * percent) / (100 * nft_count),
            Err(reason) => nft_count == 0 && reason == AmountError::DivideByZero,
        },
{
    let diff_time = end_time - start_time;
    let emitted = match checked_mul(diff_time as u128, reward_per_second) {
        Ok(product) => product,
        Err(error) => {
            return Err(error);
        },
    };
    let mul_reward = match checked_mul(emitted, percent) {
        Ok(product) => product,
        Err(error) => {
            return Err(error);
        },
    };
    let divisor = match checked_mul(100, nft_count) {
        Ok(product) => product,
        Err(error) => {
            return Err(error);
        },
    };
    checked_div(mul_reward, divisor)
}

/// The running total `total` after `change`, kept between zero and the
/// largest total.
fn change_total(total: u64, change: i64) -> (moved: u64)
    ensures
        moved == new_total(total, change as int),
{
    let sum: i128 = total as i128 + change as i128;
    if sum <= 0 {
        0
    } else if sum >= u64::MAX as i128 {
        u64::MAX
    } else {
        sum as u64
    }
}

/// The place of the first sample of `curve` at `timestamp`, if there is one.
fn find_sample(curve: &Vec<RewardRate>, timestamp: u64) -> (found: Option<usize>)
    ensures
        match found {
            Some(i) => is_first_sample(curve@, timestamp, i as int),
            None => forall|j: int| 0 <= j < curve.len() ==> curve[j].timestamp != timestamp,
        },
{
    let mut i: usize = 0;
    while i < curve.len()
        invariant
            i <= curve.len(),
            forall|j: int| 0 <= j < i ==> curve[j].timestamp != timestamp,
        decreases curve.len() - i,
    {
        if curve[i].timestamp == timestamp {
            return Some(i);
        }
        i += 1;
    }
    None
}

/// Puts `sample` into `sorted` behind the last sample that is not later
/// than it.
fn insert_sample(sorted: &mut Vec<RewardRate>, sample: RewardRate)
    ensures
        final(sorted)@ == insert_by_key(old(sorted)@, sample, by_timestamp()),
{
    let mut j: usize = sorted.len();
    while j > 0 && sorted[j - 1].timestamp > sample.timestamp
        invariant
            j <= sorted.len(),
            sorted@ == old(sorted)@,
            forall|k: int| j <= k < sorted.len() ==> sorted[k].timestamp > sample.timestamp,
        decreases j,
    {
        j -= 1;
    }
    proof {
        lemma_insert_at(sorted@, sample, by_timestamp(), j as int);
    }
    sorted.insert(j, sample);
}

/// The samples of `curve` in ascending order of time, those of equal time in
/// the order in which they stand in `curve`.
fn sort_curve(curve: Vec<RewardRate>) -> (sorted: Vec<RewardRate>)
    ensures
        sorted@ == sort_samples(curve@),
{
    let mut sorted: Vec<RewardRate> = Vec::new();
    let mut i: usize = 0;
    while i < curve.len()
        invariant
            i <= curve.len(),
            sorted@ == sort_samples(curve@.take(i as int)),
        decreases curve.len() - i,
    {
        proof {
            let next = curve@.take(i + 1);
            assert(next.drop_last() =~= curve@.take(i as int));
            assert(next.last() == curve@[i as int]);
        }
        insert_sample(&mut sorted, curve[i]);
        i += 1;
    }
    proof {
        assert(curve@.take(curve.len() as int) =~= curve@);
    }
    sorted
}

/// Records a change of a term's active count at `timestamp`.
///
/// The new total is `total + change`, never below zero. The sample of the
/// curve at `timestamp` is overwritten with the new total, or a sample is
/// added where the curve has none at that time, and the curve is returned in
/// ascending order of time, together with the new total.
pub fn update_reward_rate(
    arr_reward_rate: Vec<RewardRate>,
    total: u64,
    timestamp: u64,
    change: i64,
) -> (updated: (Vec<RewardRate>, u64))
    ensures
        updated.1 == new_total(total, change as int),
        updated.0@ == curve_after(arr_reward_rate@, timestamp, updated.1),
        curve_wf(arr_reward_rate@) ==> curve_wf(updated.0@),
{
    let total_nft = change_total(total, change);
    proof {
        if curve_wf(arr_reward_rate@) {
            lemma_curve_after_wf(arr_reward_rate@, timestamp, total_nft);
        }
    }
    let sample = RewardRate { timestamp, rate: total_nft };
    let mut curve = arr_reward_rate;
    match find_sample(&curve, timestamp) {
        Some(i) => {
            proof {
                lemma_upsert_found(curve@, sample, i as int);
            }
            curve.set(i, sample);
        },
        None => {
            proof {
                lemma_upsert_absent(curve@, sample);
            }
            curve.push(sample);
        },
    }
    (sort_curve(curve), total_nft)
}

/// Puts `time` into `sorted` behind the last time that is not later.
fn insert_time(sorted: &mut Vec<u64>, time: u64)
    ensures
        final(sorted)@ == insert_by_key(old(sorted)@, time, by_time()),
{
    let mut j: usize = sorted.len();
    while j > 0 && sorted[j - 1] > time
        invariant
            j <= sorted.len(),
            sorted@ == old(sorted)@,
            forall|k: int| j <= k < sorted.len() ==> sorted[k] > time,
        decreases j,
    {
        j -= 1;
    }
    proof {
        lemma_insert_at(sorted@, time, by_time(), j as int);
    }
    sorted.insert(j, time);
}

/// Parts the expirations at `as_of`: those that have run out, in ascending
/// order, and those that are pending, in their order.
fn split_expirations(expiration_times: &Vec<u64>, as_of: u64) -> (parts: (Vec<u64>, Vec<u64>))
    ensures
        parts.0@ == due_times(expiration_times@, as_of),
        parts.1@ == pending_times(expiration_times@, as_of),
{
    let mut due: Vec<u64> = Vec::new();
    let mut pending: Vec<u64> = Vec::new();
    let mut i: usize = 0;
    proof {
        assert(expiration_times@.take(0).filter(is_due(as_of)) =~= Seq::<u64>::empty()) by {
            reveal(Seq::filter);
        }
        assert(expiration_times@.take(0).filter(is_pending(as_of)) =~= Seq::<u64>::empty()) by {
            reveal(Seq::filter);
        }
    }
    while i < expiration_times.len()
        invariant
            i <= expiration_times.len(),
            due@ == due_times(expiration_times@.take(i as int), as_of),
            pending@ == pending_times(expiration_times@.take(i as int), as_of),
        decreases expiration_times.len() - i,
    {
        let end_time = expiration_times[i];
        proof {
            let seen = expiration_times@.take(i as int);
            assert(expiration_times@.take(i + 1) =~= seen.push(end_time));
            seen.lemma_filter_push(end_time, is_due(as_of));
            seen.lemma_filter_push(end_time, is_pending(as_of));
            let due_seen = seen.filter(is_due(as_of));
            assert(due_seen.push(end_time).drop_last() =~= due_seen);
        }
        if end_time <= as_of {
            insert_time(&mut due, end_time);
        } else {
            pending.push(end_time);
        }
        i += 1;
    }
    proof {
        assert(expiration_times@.take(expiration_times.len() as int) =~= expiration_times@);
    }
    (due, pending)
}

/// Settles a term at `as_of`.
///
/// A position leaves the count of its term when its lock runs out, but the
/// curve learns of it only when the term is next settled. For every
/// expiration that has run out at `as_of`, in ascending order of time, the
/// total goes down by one and is recorded in the curve at the time of the
/// expiration. Returns the expirations that are still pending, the curve and
/// the total.
pub fn fold_expired(
    expiration_times: Vec<u64>,
    arr_reward_rate: Vec<RewardRate>,
    total: u64,
    as_of: u64,
) -> (settled: (Vec<u64>, Vec<RewardRate>, u64))
    ensures
        (Term { samples: settled.1@, total: settled.2, expirations: settled.0@ }) == settle(
            Term { samples: arr_reward_rate@, total, expirations: expiration_times@ },
            as_of,
        ),
        curve_wf(arr_reward_rate@) ==> curve_wf(settled.1@),
{
    let ghost term = Term { samples: arr_reward_rate@, total, expirations: expiration_times@ };
    proof {
        if curve_wf(arr_reward_rate@) {
            lemma_settle_wf(term, as_of);
        }
    }
    let (due, pending) = split_expirations(&expiration_times, as_of);
    let mut curve = arr_reward_rate;
    let mut total_nft = total;
    let mut i: usize = 0;
    while i < due.len()
        invariant
            i <= due.len(),
            (Term { samples: curve@, total: total_nft, expirations: term.expirations })
                == expire_all(term, due@.take(i as int)),
        decreases due.len() - i,
    {
        proof {
            let next = due@.take(i + 1);
            assert(next.drop_last() =~= due@.take(i as int));
            assert(next.last() == due@[i as int]);
        }
        let (updated_reward_rate, t) = update_reward_rate(curve, total_nft, due[i], -1);
        curve = updated_reward_rate;
        total_nft = t;
        i += 1;
    }
    proof {
        assert(due@.take(due.len() as int) =~= due@);
    }
    (pending, curve, total_nft)
}

/// Registers a position that joins its term at `timestamp`.
///
/// The term is settled at `timestamp` first, so that positions whose lock
/// has run out no longer count. Then the end of the new position is added
/// to the pending expirations and the total, raised by one, is recorded in
/// the curve at `timestamp`. Returns the expirations, the curve and the
/// total.
pub fn stake_nft(
    expiration_times: Vec<u64>,
    arr_reward_rate: Vec<RewardRate>,
    total: u64,
    nft: NftInfo,
    timestamp: u64,
) -> (staked: (Vec<u64>, Vec<RewardRate>, u64))
    ensures
        (Term { samples: staked.1@, total: staked.2, expirations: staked.0@ }) == stake(
            Term { samples: arr_reward_rate@, total, expirations: expiration_times@ },
            nft.end_time,
            timestamp,
        ),
        curve_wf(arr_reward_rate@) ==> curve_wf(staked.1@),
{
    proof {
        if curve_wf(arr_reward_rate@) {
            lemma_stake_wf(
                Term { samples: arr_reward_rate@, total, expirations: expiration_times@ },
                nft.end_time,
                timestamp,
            );
        }
    }
    let (mut new_expiration_times, settled_rate, total_nft) = fold_expired(
        expiration_times,
        arr_reward_rate,
        total,
        timestamp,
    );
    new_expiration_times.push(nft.end_time);
    let (final_reward_rate, new_total) = update_reward_rate(settled_rate, total_nft, timestamp, 1);
    (new_expiration_times, final_reward_rate, new_total)
}

/// What a position earns from `start` to `end` on an ascending curve, cut
/// off at the largest amount.
fn accrue_on_curve(
    curve: &Vec<RewardRate>,
    start: u64,
    end: u64,
    reward_per_second: u128,
    percent: u128,
) -> (reward: u128)
    requires
        ascending(curve@, by_timestamp()),
    ensures
        reward == saturate(accrued(curve@, start, end, reward_per_second, percent)),
{
    let mut reward: u128 = 0;
    let mut i: usize = 0;
    while i < curve.len()
        invariant
            i <= curve.len(),
            ascending(curve@, by_timestamp()),
            reward == saturate(accrued_upto(curve@, i as int, start, end, reward_per_second, percent)),
        decreases curve.len() - i,
    {
        let rate_obj = curve[i];
        proof {
            lemma_accrued_nonnegative(curve@, i as int, start, end, reward_per_second, percent);
            lemma_segment_reward_bounds(
                segment_end(curve@, i as int, end) - rate_obj.timestamp,
                reward_per_second,
                percent,
                rate_obj.rate,
            );
        }
        if rate_obj.timestamp >= start && rate_obj.timestamp <= end {
            let next_timestamp = if i + 1 < curve.len() {
                curve[i + 1].timestamp
            } else {
                end
            };
            let segment_end = if next_timestamp < end {
                next_timestamp
            } else {
                end
            };
            proof {
                if i + 1 < curve.len() {
                    assert((by_timestamp())(curve@[i as int]) <= (by_timestamp())(
                        curve@[i + 1],
                    ));
                }
            }
            let duration: u128 = (segment_end - rate_obj.timestamp) as u128;
            if rate_obj.rate != 0 {
                let additional_reward = saturating_mul(
                    saturating_mul(duration, reward_per_second),
                    percent,
                ) / (rate_obj.rate as u128) / 100u128;
                reward = reward.saturating_add(additional_reward);
            }
        }
        i += 1;
    }
    reward
}

/// Integrates the reward of a position up to `current_time`.
///
/// A closed position is returned as it is, with the term unchanged. Else the
/// term is settled at `current_time` and its total is recorded in the curve
/// at that time. A position whose accrual time lies behind `current_time`
/// then stays as it is. Any other earns, for each sample of the curve
/// from its accrual time to the end of the accrual, its share of the
/// segment that the sample starts; that is added to its pending reward, its
/// accrual time moves to the end of the accrual, and it is closed where its
/// lock has run out or `current_time` has reached the end of the campaign.
/// Returns the position, the curve, the total and the expirations.
pub fn calculate_reward(
    nft: NftInfo,
    term_reward_rates: Vec<RewardRate>,
    expiration_times: Vec<u64>,
    total: u64,
    current_time: u64,
    end_time_campaign: u64,
    reward_per_second: u128,
) -> (integrated: (NftInfo, Vec<RewardRate>, u64, Vec<u64>))
    ensures
        (integrated.0, Term { samples: integrated.1@, total: integrated.2, expirations: integrated.3@ })
            == integrate(
            nft,
            Term { samples: term_reward_rates@, total, expirations: expiration_times@ },
            current_time,
            end_time_campaign,
            reward_per_second,
        ),
        curve_wf(term_reward_rates@) ==> curve_wf(integrated.1@),
        nft.wf() ==> integrated.0.wf() && integrated.0.pending_reward >= nft.pending_reward
            && integrated.0.time_calc >= nft.time_calc,
        nft.is_end_reward ==> integrated.0.is_end_reward,
{
    proof {
        let term = Term { samples: term_reward_rates@, total, expirations: expiration_times@ };
        if curve_wf(term_reward_rates@) {
            lemma_integrate_wf(nft, term, current_time, end_time_campaign, reward_per_second);
        }
        if nft.wf() {
            lemma_integrate_forward(nft, term, current_time, end_time_campaign, reward_per_second);
        }
    }
    if nft.is_end_reward {
        return (nft, term_reward_rates, total, expiration_times);
    }
    let (new_expiration_times, settled_rate, total_nft) = fold_expired(
        expiration_times,
        term_reward_rates,
        total,
        current_time,
    );
    proof {
        lemma_curve_after_ascending(settled_rate@, current_time, total_nft);
    }
    let (final_reward_rate, _) = update_reward_rate(settled_rate, total_nft, current_time, 0);

    if current_time < nft.time_calc {
        return (nft, final_reward_rate, total_nft, new_expiration_times);
    }
    let nft_start = nft.time_calc;
    let nft_end = if current_time < nft.end_time {
        current_time
    } else {
        nft.end_time
    };
    let reward = accrue_on_curve(
        &final_reward_rate,
        nft_start,
        nft_end,
        reward_per_second,
        nft.lockup_term.percent,
    );
    proof {
        lemma_accrued_nonnegative(
            final_reward_rate@,
            final_reward_rate@.len() as int,
            nft_start,
            nft_end,
            reward_per_second,
            nft.lockup_term.percent,
        );
    }
    let mut nft = nft;
    nft.pending_reward = saturating_add(nft.pending_reward, reward);
    nft.time_calc = nft_end;
    if nft.time_calc == nft.end_time || current_time >= end_time_campaign {
        nft.is_end_reward = true;
    }
    (nft, final_reward_rate, total_nft, new_expiration_times)
}

} // verus!
