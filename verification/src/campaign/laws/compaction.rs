//! Compaction cuts the early samples off a curve. What positions earn
//! behind the cut is what they would earn on the whole curve.

use vstd::prelude::*;
use crate::campaign::accrual::{accrued, accrued_upto, segment_end, settle_at};
use crate::campaign::curve::{
    by_time, by_timestamp, curve_after, curve_wf, due_times, expire_all, has_sample, is_due,
    lemma_curve_after_ascending, lemma_curve_after_wf, new_total, record, settle, stake, Term,
};
use crate::campaign::sorting::lemma_sort_keeps;
use crate::campaign::state::RewardRate;

verus! {

/// The curve `actual` is what is left of a well-formed curve of which the
/// samples `older` were cut off, and where anything was cut off, the first
/// sample that is left is not later than `low`.
pub open spec fn cut_ok(older: Seq<RewardRate>, actual: Seq<RewardRate>, low: u64) -> bool {
    &&& curve_wf(older + actual)
    &&& older.len() > 0 ==> actual.len() > 0 && actual[0].timestamp <= low
}

/// A curve that starts at or before `low` still starts at the same time
/// after changes at or behind `low`.
pub open spec fn same_first(before: Seq<RewardRate>, after: Seq<RewardRate>, low: u64) -> bool {
    before.len() > 0 && before[0].timestamp <= low ==> after.len() > 0 && after[0].timestamp
        == before[0].timestamp
}

/// The term `term` with the samples `older` in front of its curve.
pub open spec fn whole(older: Seq<RewardRate>, term: Term) -> Term {
    Term { samples: older + term.samples, ..term }
}

/// What is left of a well-formed curve is well formed.
proof fn lemma_cut_wf(older: Seq<RewardRate>, actual: Seq<RewardRate>)
    requires
        curve_wf(older + actual),
    ensures
        curve_wf(actual),
        curve_wf(older),
{
    let all = older + actual;
    let key = by_timestamp();
    assert forall|i: int, j: int| 0 <= i < j < actual.len() implies key(actual[i]) < key(
        actual[j],
    ) by {
        assert(all[older.len() + i] == actual[i]);
        assert(all[older.len() + j] == actual[j]);
        assert(key(all[older.len() + i]) < key(all[older.len() + j]));
    }
    assert forall|i: int, j: int| 0 <= i < j < older.len() implies key(older[i]) < key(
        older[j],
    ) by {
        assert(all[i] == older[i]);
        assert(all[j] == older[j]);
        assert(key(all[i]) < key(all[j]));
    }
}

/// A change behind the cut is the same change to the whole curve.
#[verifier::rlimit(50)]
pub proof fn lemma_curve_after_cut(
    older: Seq<RewardRate>,
    actual: Seq<RewardRate>,
    low: u64,
    timestamp: u64,
    rate: u64,
)
    requires
        cut_ok(older, actual, low),
        low <= timestamp,
    ensures
        curve_after(older + actual, timestamp, rate) == older + curve_after(
            actual,
            timestamp,
            rate,
        ),
        cut_ok(older, curve_after(actual, timestamp, rate), low),
        actual.len() > 0 ==> curve_after(actual, timestamp, rate)[0].timestamp
            == actual[0].timestamp || timestamp < actual[0].timestamp,
{
    let all = older + actual;
    let key = by_timestamp();
    lemma_cut_wf(older, actual);
    let place = lemma_curve_after_wf(actual, timestamp, rate);
    let whole_place = lemma_curve_after_wf(all, timestamp, rate);
    let cut = older.len() as int;
    if cut == 0 {
        assert(all =~= actual);
        assert(older + curve_after(actual, timestamp, rate) =~= curve_after(
            actual,
            timestamp,
            rate,
        ));
    } else {
        assert forall|k: int| 0 <= k < cut implies all[k].timestamp < timestamp by {
            assert(key(all[k]) < key(all[cut]));
            assert(all[cut] == actual[0]);
        }
        assert forall|k: int| 0 <= k < actual.len() implies all[cut + k] == actual[k] by {}
        assert(whole_place == cut + place) by {
            if whole_place < cut + place {
                if whole_place >= cut {
                    assert(all[whole_place] == actual[whole_place - cut]);
                }
            } else if whole_place > cut + place {
                assert(all[cut + place] == actual[place]);
            }
        }
        if has_sample(actual, timestamp) {
            assert(all[cut + place].timestamp == timestamp);
            assert(has_sample(all, timestamp));
            assert(all.update(whole_place, RewardRate { timestamp, rate }) =~= older
                + actual.update(place, RewardRate { timestamp, rate }));
        } else {
            assert(!has_sample(all, timestamp)) by {
                if has_sample(all, timestamp) {
                    let i = choose|i: int| 0 <= i < all.len() && all[i].timestamp == timestamp;
                    assert(i >= cut);
                    assert(actual[i - cut].timestamp == timestamp);
                }
            }
            assert(all.insert(whole_place, RewardRate { timestamp, rate }) =~= older
                + actual.insert(place, RewardRate { timestamp, rate }));
        }
    }
    if actual.len() > 0 && timestamp >= actual[0].timestamp {
        let changed = curve_after(actual, timestamp, rate);
        assert(changed[0].timestamp == actual[0].timestamp) by {
            if place == 0 {
                assert(actual[0].timestamp >= timestamp);
            } else {
                assert(changed[0] == actual[0]);
            }
        }
    }
}

/// A change of the count behind the cut is the same change to the whole
/// term.
pub proof fn lemma_record_cut(
    older: Seq<RewardRate>,
    term: Term,
    low: u64,
    timestamp: u64,
    change: int,
)
    requires
        cut_ok(older, term.samples, low),
        low <= timestamp,
    ensures
        record(whole(older, term), timestamp, change) == whole(
            older,
            record(term, timestamp, change),
        ),
        cut_ok(older, record(term, timestamp, change).samples, low),
        same_first(term.samples, record(term, timestamp, change).samples, low),
{
    lemma_curve_after_cut(
        older,
        term.samples,
        low,
        timestamp,
        new_total(term.total, change),
    );
    lemma_curve_after_ascending(
        term.samples,
        timestamp,
        new_total(term.total, change),
    );
}

/// Expirations behind the cut are the same expirations of the whole term.
pub proof fn lemma_expire_all_cut(older: Seq<RewardRate>, term: Term, low: u64, due: Seq<u64>)
    requires
        cut_ok(older, term.samples, low),
        forall|i: int| 0 <= i < due.len() ==> due[i] >= low,
    ensures
        expire_all(whole(older, term), due) == whole(older, expire_all(term, due)),
        cut_ok(older, expire_all(term, due).samples, low),
        same_first(term.samples, expire_all(term, due).samples, low),
    decreases due.len(),
{
    if due.len() > 0 {
        let front = due.drop_last();
        assert forall|i: int| 0 <= i < front.len() implies front[i] >= low by {
            assert(front[i] == due[i]);
        }
        lemma_expire_all_cut(older, term, low, front);
        assert(due[due.len() - 1] >= low);
        lemma_record_cut(older, expire_all(term, front), low, due.last(), -1);
    }
}

/// A settlement behind the cut is the same settlement of the whole term.
pub proof fn lemma_settle_at_cut(older: Seq<RewardRate>, term: Term, low: u64, now: u64)
    requires
        cut_ok(older, term.samples, low),
        low <= now,
        forall|i: int| 0 <= i < term.expirations.len() ==> term.expirations[i] >= low,
    ensures
        settle_at(whole(older, term), now) == whole(older, settle_at(term, now)),
        cut_ok(older, settle_at(term, now).samples, low),
        same_first(term.samples, settle_at(term, now).samples, low),
{
    let due = due_times(term.expirations, now);
    lemma_due_from(term.expirations, now, low);
    lemma_expire_all_cut(older, term, low, due);
    lemma_record_cut(older, settle(term, now), low, now, 0);
}

/// A staking behind the cut is the same staking into the whole term.
pub proof fn lemma_stake_cut(
    older: Seq<RewardRate>,
    term: Term,
    low: u64,
    end_time: u64,
    now: u64,
)
    requires
        cut_ok(older, term.samples, low),
        low <= now,
        forall|i: int| 0 <= i < term.expirations.len() ==> term.expirations[i] >= low,
    ensures
        stake(whole(older, term), end_time, now) == whole(older, stake(term, end_time, now)),
        cut_ok(older, stake(term, end_time, now).samples, low),
        same_first(term.samples, stake(term, end_time, now).samples, low),
{
    let due = due_times(term.expirations, now);
    lemma_due_from(term.expirations, now, low);
    lemma_expire_all_cut(older, term, low, due);
    let settled = settle(term, now);
    lemma_record_cut(
        older,
        Term { expirations: settled.expirations.push(end_time), ..settled },
        low,
        now,
        1,
    );
}

/// The expirations that have run out are among the expirations.
proof fn lemma_due_from(expirations: Seq<u64>, now: u64, low: u64)
    requires
        forall|i: int| 0 <= i < expirations.len() ==> expirations[i] >= low,
    ensures
        forall|i: int|
            0 <= i < due_times(expirations, now).len() ==> due_times(expirations, now)[i] >= low,
{
    let unsorted = expirations.filter(is_due(now));
    let from = |time: u64| time >= low;
    assert forall|i: int| 0 <= i < unsorted.len() implies from(unsorted[i]) by {
        expirations.lemma_filter_contains_rev(is_due(now), unsorted[i]);
        let k = choose|k: int| 0 <= k < expirations.len() && expirations[k] == unsorted[i];
        assert(expirations[k] >= low);
    }
    lemma_sort_keeps(unsorted, by_time(), from);
    assert forall|i: int| 0 <= i < due_times(expirations, now).len() implies due_times(
        expirations,
        now,
    )[i] >= low by {
        assert(from(due_times(expirations, now)[i]));
    }
}

/// What a position earns behind the cut, on the first `n` samples that are
/// left, is what it earns on the whole curve up to them.
proof fn lemma_accrued_upto_cut(
    older: Seq<RewardRate>,
    actual: Seq<RewardRate>,
    n: int,
    start: u64,
    end: u64,
    reward_per_second: u128,
    percent: u128,
)
    requires
        curve_wf(older + actual),
        actual.len() > 0,
        actual[0].timestamp <= start,
        0 <= n <= actual.len(),
    ensures
        accrued_upto(older + actual, older.len() + n, start, end, reward_per_second, percent)
            == accrued_upto(actual, n, start, end, reward_per_second, percent),
    decreases older.len() + n,
{
    let all = older + actual;
    let key = by_timestamp();
    if n > 0 {
        lemma_accrued_upto_cut(older, actual, n - 1, start, end, reward_per_second, percent);
        let j = older.len() + n - 1;
        assert(all[j] == actual[n - 1]);
        if n < actual.len() {
            assert(all[j + 1] == actual[n]);
        }
        assert(segment_end(all, j, end) == segment_end(actual, n - 1, end));
    } else if older.len() > 0 {
        let fewer = older.drop_last();
        let more = seq![older.last()] + actual;
        assert(fewer + more =~= all);
        let j = older.len() - 1;
        assert(all[j] == older[j]);
        assert(all[older.len() as int] == actual[0]);
        assert(key(all[j]) < key(all[older.len() as int]));
        lemma_accrued_upto_front(all, j, start, end, reward_per_second, percent);
    }
}

/// The samples before the start of an accrual add nothing to it.
proof fn lemma_accrued_upto_front(
    samples: Seq<RewardRate>,
    n: int,
    start: u64,
    end: u64,
    reward_per_second: u128,
    percent: u128,
)
    requires
        curve_wf(samples),
        0 <= n < samples.len(),
        samples[n].timestamp < start,
    ensures
        accrued_upto(samples, n + 1, start, end, reward_per_second, percent) == 0,
    decreases n,
{
    if n > 0 {
        assert((by_timestamp())(samples[n - 1]) < (by_timestamp())(samples[n]));
        lemma_accrued_upto_front(samples, n - 1, start, end, reward_per_second, percent);
    } else {
        assert(accrued_upto(samples, 0, start, end, reward_per_second, percent) == 0);
    }
}

/// What a position earns behind the cut is what it earns on the whole
/// curve.
pub proof fn lemma_accrued_cut(
    older: Seq<RewardRate>,
    actual: Seq<RewardRate>,
    low: u64,
    start: u64,
    end: u64,
    reward_per_second: u128,
    percent: u128,
)
    requires
        cut_ok(older, actual, low),
        older.len() > 0 ==> actual[0].timestamp <= start,
    ensures
        accrued(older + actual, start, end, reward_per_second, percent) == accrued(
            actual,
            start,
            end,
            reward_per_second,
            percent,
        ),
{
    if older.len() == 0 {
        assert(older + actual =~= actual);
    } else {
        lemma_accrued_upto_cut(
            older,
            actual,
            actual.len() as int,
            start,
            end,
            reward_per_second,
            percent,
        );
    }
}

} // verus!
