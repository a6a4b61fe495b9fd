//! The pending reward of a position grows with the time of its
//! integration.

use vstd::prelude::*;
use vstd::arithmetic::div_mod::lemma_div_is_ordered;
use crate::campaign::accrual::{
    accrual_end, accrued_upto, integrate, lemma_accrued_nonnegative, lemma_segment_reward_bounds,
    segment_end, segment_reward, settle_at,
};
use crate::campaign::curve::{
    by_time, by_timestamp, curve_after, curve_wf, due_times, expire_all, is_due,
    lemma_curve_after_wf, lemma_expire_all_wf, new_total, sort_times, Term,
};
use crate::campaign::sorting::{
    ascending, lemma_insert_before, lemma_insert_behind, lemma_sort_keeps, sort_by_key,
};
use crate::campaign::state::{NftInfo, RewardRate};
use crate::math::saturate;

verus! {

/// The expirations that run out behind `earlier` and not behind `later`.
spec fn is_between(earlier: u64, later: u64) -> spec_fn(u64) -> bool {
    |time: u64| earlier < time <= later
}

/// The expirations that have run out at a later time are those that had
/// run out at an earlier time, followed by those that ran out in between.
proof fn lemma_due_split(expirations: Seq<u64>, earlier: u64, later: u64)
    requires
        earlier <= later,
    ensures
        due_times(expirations, later) == due_times(expirations, earlier) + sort_times(
            expirations.filter(is_between(earlier, later)),
        ),
    decreases expirations.len(),
{
    reveal(Seq::filter);
    let key = by_time();
    if expirations.len() == 0 {
        assert(Seq::<u64>::empty() + Seq::<u64>::empty() =~= Seq::<u64>::empty());
    } else {
        let front = expirations.drop_last();
        let x = expirations.last();
        lemma_due_split(front, earlier, later);
        let before = front.filter(is_due(earlier));
        let between = front.filter(is_between(earlier, later));
        let both = front.filter(is_due(later));
        let sorted_before = sort_by_key(before, key);
        let sorted_between = sort_by_key(between, key);
        assert forall|k: int| 0 <= k < before.len() implies (is_due(earlier))(before[k]) by {
            front.lemma_filter_pred(is_due(earlier), k);
        }
        lemma_sort_keeps(before, key, is_due(earlier));
        assert forall|k: int| 0 <= k < between.len() implies (is_between(earlier, later))(
            between[k],
        ) by {
            front.lemma_filter_pred(is_between(earlier, later), k);
        }
        lemma_sort_keeps(between, key, is_between(earlier, later));
        if x <= earlier {
            assert(both.push(x).drop_last() =~= both);
            assert(before.push(x).drop_last() =~= before);
            assert forall|k: int| 0 <= k < sorted_between.len() implies key(sorted_between[k])
                > key(x) by {
                assert((is_between(earlier, later))(sorted_between[k]));
            }
            lemma_insert_before(sorted_before, sorted_between, x, key);
        } else if x <= later {
            assert(both.push(x).drop_last() =~= both);
            assert(between.push(x).drop_last() =~= between);
            assert forall|k: int| 0 <= k < sorted_before.len() implies key(sorted_before[k])
                <= key(x) by {
                assert((is_due(earlier))(sorted_before[k]));
            }
            lemma_insert_behind(sorted_before, sorted_between, x, key);
        }
    }
}

/// Applying expirations one list after the other is applying them all.
proof fn lemma_expire_all_append(term: Term, first: Seq<u64>, second: Seq<u64>)
    ensures
        expire_all(term, first + second) == expire_all(expire_all(term, first), second),
    decreases second.len(),
{
    if second.len() == 0 {
        assert(first + second =~= first);
    } else {
        lemma_expire_all_append(term, first, second.drop_last());
        assert((first + second).drop_last() =~= first + second.drop_last());
        assert((first + second).last() == second.last());
    }
}

/// The first `k` samples of `curve` lie before `bound` and the others do
/// not.
pub open spec fn splits_at(curve: Seq<RewardRate>, k: int, bound: u64) -> bool {
    &&& 0 <= k <= curve.len()
    &&& forall|j: int| 0 <= j < k ==> curve[j].timestamp < bound
    &&& forall|j: int| k <= j < curve.len() ==> curve[j].timestamp >= bound
}

/// An ascending curve splits at every time.
pub proof fn lemma_split_exists(curve: Seq<RewardRate>, bound: u64) -> (k: int)
    requires
        ascending(curve, by_timestamp()),
    ensures
        splits_at(curve, k, bound),
    decreases curve.len(),
{
    let key = by_timestamp();
    if curve.len() == 0 {
        0
    } else if curve.last().timestamp < bound {
        assert forall|j: int| 0 <= j < curve.len() implies curve[j].timestamp < bound by {
            if j < curve.len() - 1 {
                assert(key(curve[j]) <= key(curve[curve.len() - 1]));
            }
        }
        curve.len() as int
    } else {
        let front = curve.drop_last();
        assert(ascending(front, key)) by {
            assert forall|i: int, j: int| 0 <= i < j < front.len() implies key(front[i]) <= key(
                front[j],
            ) by {
                assert(key(curve[i]) <= key(curve[j]));
            }
        }
        let k = lemma_split_exists(front, bound);
        assert forall|j: int| 0 <= j < k implies curve[j].timestamp < bound by {
            assert(front[j] == curve[j]);
        }
        assert forall|j: int| k <= j < curve.len() implies curve[j].timestamp >= bound by {
            if j < front.len() {
                assert(front[j] == curve[j]);
            }
        }
        k
    }
}

/// A change at a time leaves the samples before that time as they are.
pub proof fn lemma_curve_after_keeps_front(
    curve: Seq<RewardRate>,
    timestamp: u64,
    rate: u64,
    bound: u64,
    k: int,
)
    requires
        curve_wf(curve),
        bound <= timestamp,
        splits_at(curve, k, bound),
    ensures
        splits_at(curve_after(curve, timestamp, rate), k, bound),
        curve_after(curve, timestamp, rate).take(k) == curve.take(k),
        curve_wf(curve_after(curve, timestamp, rate)),
{
    let place = lemma_curve_after_wf(curve, timestamp, rate);
    let changed = curve_after(curve, timestamp, rate);
    assert(k <= place) by {
        if place < k {
            assert(curve[place].timestamp < bound);
        }
    }
    assert(changed.take(k) =~= curve.take(k));
    assert forall|j: int| 0 <= j < k implies changed[j].timestamp < bound by {
        assert(changed[j] == curve[j]);
    }
    assert forall|j: int| k <= j < changed.len() implies changed[j].timestamp >= bound by {
        if changed.len() == curve.len() {
            if j != place {
                assert(changed[j] == curve[j]);
            }
        } else {
            if j < place {
                assert(changed[j] == curve[j]);
            } else if j > place {
                assert(changed[j] == curve[j - 1]);
            }
        }
    }
}

/// Expirations that do not run out before a time leave the samples before
/// that time as they are.
pub proof fn lemma_expire_all_keeps_front(term: Term, due: Seq<u64>, bound: u64, k: int)
    requires
        curve_wf(term.samples),
        splits_at(term.samples, k, bound),
        forall|i: int| 0 <= i < due.len() ==> due[i] >= bound,
    ensures
        splits_at(expire_all(term, due).samples, k, bound),
        expire_all(term, due).samples.take(k) == term.samples.take(k),
        curve_wf(expire_all(term, due).samples),
    decreases due.len(),
{
    if due.len() > 0 {
        let front = due.drop_last();
        assert forall|i: int| 0 <= i < front.len() implies front[i] >= bound by {
            assert(front[i] == due[i]);
        }
        lemma_expire_all_keeps_front(term, front, bound, k);
        let before = expire_all(term, front);
        lemma_curve_after_keeps_front(
            before.samples,
            due.last(),
            new_total(before.total, -1),
            bound,
            k,
        );
    }
}

/// A longer segment earns no less.
pub proof fn lemma_segment_reward_grows(
    shorter: int,
    longer: int,
    reward_per_second: u128,
    percent: u128,
    rate: u64,
)
    requires
        shorter <= longer,
    ensures
        segment_reward(shorter, reward_per_second, percent, rate) <= segment_reward(
            longer,
            reward_per_second,
            percent,
            rate,
        ),
{
    if rate != 0 {
        let r = reward_per_second as int;
        let p = percent as int;
        assert(shorter * r <= longer * r) by (nonlinear_arith)
            requires
                shorter <= longer,
                r >= 0,
        ;
        let a = saturate(shorter * r);
        let b = saturate(longer * r);
        assert(a * p <= b * p) by (nonlinear_arith)
            requires
                a <= b,
                p >= 0,
        ;
        let x = saturate(a * p);
        let y = saturate(b * p);
        lemma_div_is_ordered(x, y, rate as int);
        lemma_div_is_ordered(x / (rate as int), y / (rate as int), 100);
    }
}

/// The samples that do not lie before the end of an accrual add nothing
/// to it.
pub proof fn lemma_back_earns_nothing(
    samples: Seq<RewardRate>,
    n: int,
    k: int,
    start: u64,
    end: u64,
    bound: u64,
    reward_per_second: u128,
    percent: u128,
)
    requires
        ascending(samples, by_timestamp()),
        splits_at(samples, k, bound),
        end <= bound,
        k <= n <= samples.len(),
    ensures
        accrued_upto(samples, n, start, end, reward_per_second, percent) == accrued_upto(
            samples,
            k,
            start,
            end,
            reward_per_second,
            percent,
        ),
    decreases n,
{
    if n > k {
        lemma_back_earns_nothing(
            samples,
            n - 1,
            k,
            start,
            end,
            bound,
            reward_per_second,
            percent,
        );
        let sample = samples[n - 1];
        if start <= sample.timestamp <= end {
            if n < samples.len() {
                assert((by_timestamp())(samples[n - 1]) <= (by_timestamp())(samples[n]));
            }
            assert(segment_end(samples, n - 1, end) == end);
            assert(saturate(saturate(0 * reward_per_second) * percent) == 0) by (nonlinear_arith);
            let rate = sample.rate as int;
            if rate != 0 {
                assert(0int / rate / 100 == 0) by (nonlinear_arith)
                    requires
                        rate > 0,
                ;
            }
        }
    }
}

/// Of two curves with the same samples before a time, the one that is
/// integrated further earns no less on those samples.
pub proof fn lemma_front_earns_more(
    first: Seq<RewardRate>,
    second: Seq<RewardRate>,
    n: int,
    k: int,
    start: u64,
    first_end: u64,
    second_end: u64,
    bound: u64,
    reward_per_second: u128,
    percent: u128,
)
    requires
        splits_at(first, k, bound),
        splits_at(second, k, bound),
        first.take(k) == second.take(k),
        first_end <= bound,
        first_end <= second_end,
        0 <= n <= k,
    ensures
        accrued_upto(first, n, start, first_end, reward_per_second, percent) <= accrued_upto(
            second,
            n,
            start,
            second_end,
            reward_per_second,
            percent,
        ),
    decreases n,
{
    if n > 0 {
        lemma_front_earns_more(
            first,
            second,
            n - 1,
            k,
            start,
            first_end,
            second_end,
            bound,
            reward_per_second,
            percent,
        );
        let j = n - 1;
        assert(first[j] == first.take(k)[j]);
        assert(second[j] == second.take(k)[j]);
        let sample = first[j];
        lemma_segment_reward_bounds(
            segment_end(second, j, second_end) - sample.timestamp,
            reward_per_second,
            percent,
            sample.rate,
        );
        if start <= sample.timestamp <= first_end {
            if j + 1 < k {
                assert(first[j + 1] == first.take(k)[j + 1]);
                assert(second[j + 1] == second.take(k)[j + 1]);
            }
            assert(segment_end(first, j, first_end) <= segment_end(second, j, second_end));
            lemma_segment_reward_grows(
                segment_end(first, j, first_end) - sample.timestamp,
                segment_end(second, j, second_end) - sample.timestamp,
                reward_per_second,
                percent,
                sample.rate,
            );
        }
    }
}

/// More samples earn no less.
pub proof fn lemma_accrued_grows(
    samples: Seq<RewardRate>,
    fewer: int,
    more: int,
    start: u64,
    end: u64,
    reward_per_second: u128,
    percent: u128,
)
    requires
        0 <= fewer <= more <= samples.len(),
    ensures
        accrued_upto(samples, fewer, start, end, reward_per_second, percent) <= accrued_upto(
            samples,
            more,
            start,
            end,
            reward_per_second,
            percent,
        ),
    decreases more,
{
    if fewer < more {
        lemma_accrued_grows(samples, fewer, more - 1, start, end, reward_per_second, percent);
        lemma_segment_reward_bounds(
            segment_end(samples, more - 1, end) - samples[more - 1].timestamp,
            reward_per_second,
            percent,
            samples[more - 1].rate,
        );
    }
}

/// The curves that a term has after it was settled at two times have the
/// same samples before the earlier time.
pub proof fn lemma_settled_agree(term: Term, earlier: u64, later: u64) -> (k: int)
    requires
        curve_wf(term.samples),
        earlier <= later,
    ensures
        splits_at(settle_at(term, earlier).samples, k, earlier),
        splits_at(settle_at(term, later).samples, k, earlier),
        settle_at(term, earlier).samples.take(k) == settle_at(term, later).samples.take(k),
        curve_wf(settle_at(term, earlier).samples),
        curve_wf(settle_at(term, later).samples),
{
    let due = due_times(term.expirations, earlier);
    let between = sort_times(term.expirations.filter(is_between(earlier, later)));
    lemma_due_split(term.expirations, earlier, later);
    lemma_expire_all_append(term, due, between);
    let first = expire_all(term, due);
    lemma_expire_all_wf(term, due);
    let k = lemma_split_exists(first.samples, earlier);
    assert forall|i: int| 0 <= i < between.len() implies between[i] >= earlier by {
        let unsorted = term.expirations.filter(is_between(earlier, later));
        assert forall|j: int| 0 <= j < unsorted.len() implies (is_between(earlier, later))(
            unsorted[j],
        ) by {
            term.expirations.lemma_filter_pred(is_between(earlier, later), j);
        }
        lemma_sort_keeps(unsorted, by_time(), is_between(earlier, later));
        assert((is_between(earlier, later))(between[i]));
    }
    lemma_expire_all_keeps_front(first, between, earlier, k);
    let second = expire_all(first, between);
    lemma_curve_after_keeps_front(first.samples, earlier, new_total(first.total, 0), earlier, k);
    lemma_curve_after_keeps_front(second.samples, later, new_total(second.total, 0), earlier, k);
    k
}

/// Integration is monotone: of two integrations of one position on one
/// term, the one at the later time leaves no less pending reward.
pub proof fn lemma_integrate_monotone(
    nft: NftInfo,
    term: Term,
    earlier: u64,
    later: u64,
    campaign_end: u64,
    reward_per_second: u128,
)
    requires
        curve_wf(term.samples),
        earlier <= later,
    ensures
        integrate(nft, term, earlier, campaign_end, reward_per_second).0.pending_reward
            <= integrate(nft, term, later, campaign_end, reward_per_second).0.pending_reward,
{
    if !nft.is_end_reward && later >= nft.time_calc {
        let second = settle_at(term, later).samples;
        let second_end = accrual_end(nft, later);
        lemma_accrued_nonnegative(
            second,
            second.len() as int,
            nft.time_calc,
            second_end,
            reward_per_second,
            nft.lockup_term.percent,
        );
        if earlier >= nft.time_calc {
            let first = settle_at(term, earlier).samples;
            let first_end = accrual_end(nft, earlier);
            let k = lemma_settled_agree(term, earlier, later);
            lemma_back_earns_nothing(
                first,
                first.len() as int,
                k,
                nft.time_calc,
                first_end,
                earlier,
                reward_per_second,
                nft.lockup_term.percent,
            );
            lemma_front_earns_more(
                first,
                second,
                k,
                k,
                nft.time_calc,
                first_end,
                second_end,
                earlier,
                reward_per_second,
                nft.lockup_term.percent,
            );
            lemma_accrued_grows(
                second,
                k,
                second.len() as int,
                nft.time_calc,
                second_end,
                reward_per_second,
                nft.lockup_term.percent,
            );
        }
    }
}

} // verus!
