//! What a position has earned is not changed by what happens to its term
//! later.

use vstd::prelude::*;
use crate::campaign::accrual::{accrued, settle_at};
use crate::campaign::curve::{
    by_time, by_timestamp, curve_wf, due_times, is_due, is_pending, lemma_settle_wf, new_total,
    pending_times, settle, stake, Term,
};
use crate::campaign::laws::monotone::{
    lemma_accrued_grows, lemma_back_earns_nothing, lemma_curve_after_keeps_front,
    lemma_expire_all_keeps_front, lemma_front_earns_more, lemma_settled_agree, lemma_split_exists,
    splits_at,
};
use crate::campaign::sorting::{ascending, lemma_sort_keeps};
use crate::campaign::state::RewardRate;

verus! {

/// The term was settled at `now`: its curve is well formed and every
/// expiration that it keeps lies behind `now`.
pub open spec fn settled_by(term: Term, now: u64) -> bool {
    &&& curve_wf(term.samples)
    &&& forall|i: int| 0 <= i < term.expirations.len() ==> term.expirations[i] > now
}

/// A well-formed curve is in ascending order of time.
pub proof fn lemma_wf_ascending(samples: Seq<RewardRate>)
    requires
        curve_wf(samples),
    ensures
        ascending(samples, by_timestamp()),
{
    assert forall|i: int, j: int| 0 <= i < j < samples.len() implies (by_timestamp())(samples[i])
        <= (by_timestamp())(samples[j]) by {
        assert((by_timestamp())(samples[i]) < (by_timestamp())(samples[j]));
    }
}

/// Two curves with the same samples before a time give the same accrual up
/// to that time.
proof fn lemma_same_front_same_accrual(
    first: Seq<RewardRate>,
    second: Seq<RewardRate>,
    k: int,
    bound: u64,
    start: u64,
    end: u64,
    reward_per_second: u128,
    percent: u128,
)
    requires
        curve_wf(first),
        curve_wf(second),
        splits_at(first, k, bound),
        splits_at(second, k, bound),
        first.take(k) == second.take(k),
        end <= bound,
    ensures
        accrued(first, start, end, reward_per_second, percent) == accrued(
            second,
            start,
            end,
            reward_per_second,
            percent,
        ),
{
    lemma_wf_ascending(first);
    lemma_wf_ascending(second);
    lemma_back_earns_nothing(
        first,
        first.len() as int,
        k,
        start,
        end,
        bound,
        reward_per_second,
        percent,
    );
    lemma_back_earns_nothing(
        second,
        second.len() as int,
        k,
        start,
        end,
        bound,
        reward_per_second,
        percent,
    );
    lemma_front_earns_more(first, second, k, k, start, end, end, bound, reward_per_second, percent);
    lemma_front_earns_more(second, first, k, k, start, end, end, bound, reward_per_second, percent);
}

/// Settling a settled term at a later time lets the samples before the
/// earlier time stand.
proof fn lemma_settle_keeps_front(term: Term, now: u64, later: u64) -> (k: int)
    requires
        settled_by(term, now),
        now <= later,
    ensures
        splits_at(term.samples, k, now),
        splits_at(settle(term, later).samples, k, now),
        settle(term, later).samples.take(k) == term.samples.take(k),
        settled_by(settle(term, later), later),
{
    lemma_wf_ascending(term.samples);
    let k = lemma_split_exists(term.samples, now);
    let unsorted = term.expirations.filter(is_due(later));
    let behind = |time: u64| time > now;
    assert forall|i: int| 0 <= i < unsorted.len() implies behind(unsorted[i]) by {
        term.expirations.lemma_filter_contains_rev(is_due(later), unsorted[i]);
        let j = choose|j: int| 0 <= j < term.expirations.len() && term.expirations[j]
            == unsorted[i];
        assert(term.expirations[j] > now);
    }
    lemma_sort_keeps(unsorted, by_time(), behind);
    let due = due_times(term.expirations, later);
    assert forall|i: int| 0 <= i < due.len() implies due[i] >= now by {
        assert(behind(due[i]));
    }
    lemma_expire_all_keeps_front(term, due, now, k);
    let pending = pending_times(term.expirations, later);
    assert forall|i: int| 0 <= i < pending.len() implies pending[i] > later by {
        term.expirations.lemma_filter_pred(is_pending(later), i);
    }
    k
}

/// An integration at a later time does not change what a position has
/// earned before: on the curve that it leaves, every accrual that ends at
/// or before the time at which the term was last settled is what it was.
pub proof fn lemma_accrual_stable_settle(
    term: Term,
    now: u64,
    later: u64,
    start: u64,
    end: u64,
    reward_per_second: u128,
    percent: u128,
)
    requires
        settled_by(term, now),
        now <= later,
        end <= now,
    ensures
        accrued(settle_at(term, later).samples, start, end, reward_per_second, percent)
            == accrued(term.samples, start, end, reward_per_second, percent),
        settled_by(settle_at(term, later), later),
{
    let k = lemma_settle_keeps_front(term, now, later);
    let settled = settle(term, later);
    lemma_curve_after_keeps_front(settled.samples, later, new_total(settled.total, 0), now, k);
    lemma_same_front_same_accrual(
        term.samples,
        settle_at(term, later).samples,
        k,
        now,
        start,
        end,
        reward_per_second,
        percent,
    );
}

/// A position that joins at a later time does not change what another has
/// earned before: on the curve that the staking leaves, every accrual that
/// ends at or before the time at which the term was last settled is what it
/// was.
pub proof fn lemma_accrual_stable_stake(
    term: Term,
    now: u64,
    end_time: u64,
    later: u64,
    start: u64,
    end: u64,
    reward_per_second: u128,
    percent: u128,
)
    requires
        settled_by(term, now),
        now <= later < end_time,
        end <= now,
    ensures
        accrued(stake(term, end_time, later).samples, start, end, reward_per_second, percent)
            == accrued(term.samples, start, end, reward_per_second, percent),
        settled_by(stake(term, end_time, later), later),
{
    let k = lemma_settle_keeps_front(term, now, later);
    let settled = settle(term, later);
    let joined = Term { expirations: settled.expirations.push(end_time), ..settled };
    lemma_curve_after_keeps_front(settled.samples, later, new_total(settled.total, 1), now, k);
    lemma_same_front_same_accrual(
        term.samples,
        stake(term, end_time, later).samples,
        k,
        now,
        start,
        end,
        reward_per_second,
        percent,
    );
    assert forall|i: int| 0 <= i < joined.expirations.len() implies joined.expirations[i]
        > later by {
        if i < settled.expirations.len() {
            assert(joined.expirations[i] == settled.expirations[i]);
        }
    }
}

/// An accrual that ends before a term is settled does not depend on when
/// the term is settled: on the curves that two settlements leave, every
/// accrual that ends at or before the earlier settlement is the same.
pub proof fn lemma_accrual_same_settled(
    term: Term,
    earlier: u64,
    later: u64,
    start: u64,
    end: u64,
    reward_per_second: u128,
    percent: u128,
)
    requires
        curve_wf(term.samples),
        earlier <= later,
        end <= earlier,
    ensures
        accrued(settle_at(term, later).samples, start, end, reward_per_second, percent)
            == accrued(settle_at(term, earlier).samples, start, end, reward_per_second, percent),
{
    let k = lemma_settled_agree(term, earlier, later);
    lemma_same_front_same_accrual(
        settle_at(term, earlier).samples,
        settle_at(term, later).samples,
        k,
        earlier,
        start,
        end,
        reward_per_second,
        percent,
    );
}

/// An accrual that ends before a position joins does not depend on the
/// joining: on the curve that a staking leaves, every accrual that ends at
/// or before an earlier time is what it is on the curve settled at that
/// time.
pub proof fn lemma_accrual_same_staked(
    term: Term,
    earlier: u64,
    end_time: u64,
    later: u64,
    start: u64,
    end: u64,
    reward_per_second: u128,
    percent: u128,
)
    requires
        curve_wf(term.samples),
        earlier <= later,
        end <= earlier,
    ensures
        accrued(stake(term, end_time, later).samples, start, end, reward_per_second, percent)
            == accrued(settle_at(term, earlier).samples, start, end, reward_per_second, percent),
{
    let settled = settle(term, later);
    lemma_settle_wf(term, later);
    lemma_wf_ascending(settled.samples);
    let k = lemma_split_exists(settled.samples, later);
    lemma_curve_after_keeps_front(settled.samples, later, new_total(settled.total, 1), later, k);
    lemma_curve_after_keeps_front(settled.samples, later, new_total(settled.total, 0), later, k);
    lemma_same_front_same_accrual(
        stake(term, end_time, later).samples,
        settle_at(term, later).samples,
        k,
        later,
        start,
        end,
        reward_per_second,
        percent,
    );
    lemma_accrual_same_settled(term, earlier, later, start, end, reward_per_second, percent);
}

/// A longer accrual earns no less: on a curve in ascending order of time,
/// what a position earns from its start grows with the end of the accrual.
pub proof fn lemma_accrued_grows_with_end(
    samples: Seq<RewardRate>,
    start: u64,
    sooner: u64,
    later: u64,
    reward_per_second: u128,
    percent: u128,
)
    requires
        ascending(samples, by_timestamp()),
        sooner <= later,
    ensures
        accrued(samples, start, sooner, reward_per_second, percent) <= accrued(
            samples,
            start,
            later,
            reward_per_second,
            percent,
        ),
{
    let k = lemma_split_exists(samples, sooner);
    lemma_back_earns_nothing(
        samples,
        samples.len() as int,
        k,
        start,
        sooner,
        sooner,
        reward_per_second,
        percent,
    );
    lemma_front_earns_more(
        samples,
        samples,
        k,
        k,
        start,
        sooner,
        later,
        sooner,
        reward_per_second,
        percent,
    );
    lemma_accrued_grows(
        samples,
        k,
        samples.len() as int,
        start,
        later,
        reward_per_second,
        percent,
    );
}

} // verus!
