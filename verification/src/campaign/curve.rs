//! The reward curve of one lock-up term: the number of positions that are
//! active in the term, as a step function of time.
//!
//! The curve is a sequence of samples in ascending order of time. Beside it
//! a term keeps its running total of active positions and the times at which
//! positions that are counted in that total run out. Those expirations are
//! applied to the curve lazily, when an operation next passes through the
//! term. This module states the operations as mathematical functions; the
//! executable code is in `utils`.

use vstd::prelude::*;
use super::sorting::{
    ascending, lemma_insert_place, lemma_sort_ascending, lemma_sort_of_ascending, sort_by_key,
    strictly_ascending,
};
use super::state::RewardRate;

verus! {

/// The key by which samples are ordered: their time.
pub open spec fn by_timestamp() -> spec_fn(RewardRate) -> int {
    |sample: RewardRate| sample.timestamp as int
}

/// The key by which expirations are ordered: themselves.
pub open spec fn by_time() -> spec_fn(u64) -> int {
    |time: u64| time as int
}

/// A curve is well formed where the times of its samples strictly ascend.
pub open spec fn curve_wf(curve: Seq<RewardRate>) -> bool {
    strictly_ascending(curve, by_timestamp())
}

/// The samples of `curve` in ascending order of time.
pub open spec fn sort_samples(curve: Seq<RewardRate>) -> Seq<RewardRate> {
    sort_by_key(curve, by_timestamp())
}

/// The times `times` in ascending order.
pub open spec fn sort_times(times: Seq<u64>) -> Seq<u64> {
    sort_by_key(times, by_time())
}

/// The running total after a change: `total + change`, kept within the
/// range of the total. A change that would take the total below zero leaves
/// it at zero.
pub open spec fn new_total(total: u64, change: int) -> u64 {
    let moved = total as int + change;
    if moved <= 0 {
        0
    } else if moved >= u64::MAX {
        u64::MAX
    } else {
        moved as u64
    }
}

/// Whether `curve` has a sample at `timestamp`.
pub open spec fn has_sample(curve: Seq<RewardRate>, timestamp: u64) -> bool {
    exists|i: int| 0 <= i < curve.len() && curve[i].timestamp == timestamp
}

/// Whether `i` is the place of the first sample of `curve` at `timestamp`.
pub open spec fn is_first_sample(curve: Seq<RewardRate>, timestamp: u64, i: int) -> bool {
    &&& 0 <= i < curve.len()
    &&& curve[i].timestamp == timestamp
    &&& forall|j: int| 0 <= j < i ==> curve[j].timestamp != timestamp
}

/// The place of the first sample of `curve` at `timestamp`.
pub open spec fn first_sample(curve: Seq<RewardRate>, timestamp: u64) -> int {
    choose|i: int| is_first_sample(curve, timestamp, i)
}

/// `curve` with `sample` in the place of the first sample of the same time,
/// or at its end where it has none of that time.
pub open spec fn upsert(curve: Seq<RewardRate>, sample: RewardRate) -> Seq<RewardRate> {
    if has_sample(curve, sample.timestamp) {
        curve.update(first_sample(curve, sample.timestamp), sample)
    } else {
        curve.push(sample)
    }
}

/// The curve after the count `rate` was recorded at `timestamp`: the sample
/// of that time is overwritten or added, and the samples are in ascending
/// order of time.
pub open spec fn curve_after(curve: Seq<RewardRate>, timestamp: u64, rate: u64) -> Seq<
    RewardRate,
> {
    sort_samples(upsert(curve, RewardRate { timestamp, rate }))
}

/// The expirations that have run out at `as_of`.
pub open spec fn is_due(as_of: u64) -> spec_fn(u64) -> bool {
    |time: u64| time <= as_of
}

/// The expirations that lie behind `as_of`.
pub open spec fn is_pending(as_of: u64) -> spec_fn(u64) -> bool {
    |time: u64| time > as_of
}

/// The expirations among `expirations` that have run out at `as_of`, in
/// ascending order.
pub open spec fn due_times(expirations: Seq<u64>, as_of: u64) -> Seq<u64> {
    sort_times(expirations.filter(is_due(as_of)))
}

/// The expirations among `expirations` that lie behind `as_of`, in the
/// order in which they stand in `expirations`.
pub open spec fn pending_times(expirations: Seq<u64>, as_of: u64) -> Seq<u64> {
    expirations.filter(is_pending(as_of))
}

/// What a term keeps: its curve, the running total of its active positions,
/// and the ends of the positions that the total still counts.
pub struct Term {
    pub samples: Seq<RewardRate>,
    pub total: u64,
    pub expirations: Seq<u64>,
}

/// The term after its active count changed by `change` at `timestamp`: the
/// new total is recorded in the curve at that time.
pub open spec fn record(term: Term, timestamp: u64, change: int) -> Term {
    let total = new_total(term.total, change);
    Term { samples: curve_after(term.samples, timestamp, total), total, ..term }
}

/// The term after one position left at each of the times `due`, taken in
/// the order of `due`.
pub open spec fn expire_all(term: Term, due: Seq<u64>) -> Term
    decreases due.len(),
{
    if due.len() == 0 {
        term
    } else {
        record(expire_all(term, due.drop_last()), due.last(), -1)
    }
}

/// The term settled at `as_of`: every expiration that has run out by then
/// is applied to the curve, in ascending order of time, and leaves the
/// pending expirations.
pub open spec fn settle(term: Term, as_of: u64) -> Term {
    Term {
        expirations: pending_times(term.expirations, as_of),
        ..expire_all(term, due_times(term.expirations, as_of))
    }
}

/// The term after a position that ends at `end_time` joined at `timestamp`:
/// the term is settled at that time, the end of the position is noted, and
/// the total, raised by one, is recorded.
pub open spec fn stake(term: Term, end_time: u64, timestamp: u64) -> Term {
    let settled = settle(term, timestamp);
    record(Term { expirations: settled.expirations.push(end_time), ..settled }, timestamp, 1)
}

/// Where no sample in front of `from` is at `timestamp` and some sample is,
/// a first such sample exists.
proof fn lemma_scan_first(curve: Seq<RewardRate>, timestamp: u64, from: int) -> (i: int)
    requires
        0 <= from <= curve.len(),
        forall|j: int| 0 <= j < from ==> curve[j].timestamp != timestamp,
        has_sample(curve, timestamp),
    ensures
        is_first_sample(curve, timestamp, i),
    decreases curve.len() - from,
{
    if from == curve.len() {
        let k = choose|k: int| 0 <= k < curve.len() && curve[k].timestamp == timestamp;
        assert(curve[k].timestamp != timestamp);
        from
    } else if curve[from].timestamp == timestamp {
        from
    } else {
        lemma_scan_first(curve, timestamp, from + 1)
    }
}

/// A curve with a sample at `timestamp` has a first one.
pub proof fn lemma_first_sample(curve: Seq<RewardRate>, timestamp: u64)
    requires
        has_sample(curve, timestamp),
    ensures
        is_first_sample(curve, timestamp, first_sample(curve, timestamp)),
{
    lemma_scan_first(curve, timestamp, 0);
}

/// Where `i` is the place of the first sample at the time of `sample`, the
/// sample at `i` is the one that is overwritten.
pub proof fn lemma_upsert_found(curve: Seq<RewardRate>, sample: RewardRate, i: int)
    requires
        is_first_sample(curve, sample.timestamp, i),
    ensures
        has_sample(curve, sample.timestamp),
        first_sample(curve, sample.timestamp) == i,
        upsert(curve, sample) == curve.update(i, sample),
{
    let k = first_sample(curve, sample.timestamp);
    assert(is_first_sample(curve, sample.timestamp, k));
    assert(k == i) by {
        if k < i {
            assert(curve[k].timestamp != sample.timestamp);
        } else if i < k {
            assert(curve[i].timestamp != sample.timestamp);
        }
    }
}

/// Where no sample has the time of `sample`, it is added at the end.
pub proof fn lemma_upsert_absent(curve: Seq<RewardRate>, sample: RewardRate)
    requires
        forall|j: int| 0 <= j < curve.len() ==> curve[j].timestamp != sample.timestamp,
    ensures
        !has_sample(curve, sample.timestamp),
        upsert(curve, sample) == curve.push(sample),
{
}

/// A curve after a change is in ascending order of time, and has as many
/// samples as before or one more.
pub proof fn lemma_curve_after_ascending(curve: Seq<RewardRate>, timestamp: u64, rate: u64)
    ensures
        ascending(curve_after(curve, timestamp, rate), by_timestamp()),
        curve.len() <= curve_after(curve, timestamp, rate).len() <= curve.len() + 1,
        curve_after(curve, timestamp, rate).len() >= 1,
{
    let sample = RewardRate { timestamp, rate };
    lemma_sort_ascending(upsert(curve, sample), by_timestamp());
    if has_sample(curve, timestamp) {
        lemma_first_sample(curve, timestamp);
    }
}

/// How a change shows in a well-formed curve: the sample of its time is
/// overwritten in its place, or the new sample stands at the one place that
/// keeps the times ascending. Either way the curve stays well formed.
pub proof fn lemma_curve_after_wf(curve: Seq<RewardRate>, timestamp: u64, rate: u64) -> (place: int)
    requires
        curve_wf(curve),
    ensures
        curve_wf(curve_after(curve, timestamp, rate)),
        0 <= place <= curve.len(),
        has_sample(curve, timestamp) ==> place < curve.len() && curve[place].timestamp
            == timestamp && curve_after(curve, timestamp, rate) == curve.update(
            place,
            RewardRate { timestamp, rate },
        ),
        !has_sample(curve, timestamp) ==> curve_after(curve, timestamp, rate) == curve.insert(
            place,
            RewardRate { timestamp, rate },
        ),
        forall|k: int| 0 <= k < place ==> curve[k].timestamp < timestamp,
        forall|k: int|
            place <= k < curve.len() && k != place ==> curve[k].timestamp > timestamp,
        place < curve.len() ==> curve[place].timestamp >= timestamp,
{
    let sample = RewardRate { timestamp, rate };
    let key = by_timestamp();
    if has_sample(curve, timestamp) {
        lemma_first_sample(curve, timestamp);
        let i = first_sample(curve, timestamp);
        let changed = curve.update(i, sample);
        assert forall|a: int, b: int| 0 <= a < b < changed.len() implies key(changed[a]) < key(
            changed[b],
        ) by {
            assert(key(curve[a]) < key(curve[b]));
        }
        lemma_sort_of_ascending(changed, key);
        assert forall|k: int| 0 <= k < i implies curve[k].timestamp < timestamp by {
            assert(key(curve[k]) < key(curve[i]));
        }
        assert forall|k: int| i < k < curve.len() implies curve[k].timestamp > timestamp by {
            assert(key(curve[i]) < key(curve[k]));
        }
        i
    } else {
        let added = curve.push(sample);
        assert(added.drop_last() =~= curve);
        lemma_sort_of_ascending(curve, key);
        let j = lemma_insert_place(curve, sample, key);
        let changed = curve.insert(j, sample);
        assert forall|k: int| 0 <= k < j implies curve[k].timestamp < timestamp by {
            assert(key(curve[k]) <= key(curve[j - 1]));
            assert(curve[k].timestamp != timestamp);
        }
        assert forall|a: int, b: int| 0 <= a < b < changed.len() implies key(changed[a]) < key(
            changed[b],
        ) by {
            if a < j && b > j {
                assert(changed[a] == curve[a] && changed[b] == curve[b - 1]);
                assert(key(curve[b - 1]) > key(sample));
            } else if a == j {
                assert(changed[b] == curve[b - 1]);
            } else if b == j {
                assert(changed[a] == curve[a]);
            } else if b < j {
                assert(changed[a] == curve[a] && changed[b] == curve[b]);
                assert(key(curve[a]) < key(curve[b]));
            } else {
                assert(changed[a] == curve[a - 1] && changed[b] == curve[b - 1]);
                assert(key(curve[a - 1]) < key(curve[b - 1]));
            }
        }
        j
    }
}

/// Recording in a well-formed curve a count that it already holds at that
/// time changes nothing.
pub proof fn lemma_curve_after_same(curve: Seq<RewardRate>, timestamp: u64, rate: u64, i: int)
    requires
        curve_wf(curve),
        0 <= i < curve.len(),
        curve[i] == (RewardRate { timestamp, rate }),
    ensures
        curve_after(curve, timestamp, rate) == curve,
{
    let place = lemma_curve_after_wf(curve, timestamp, rate);
    assert(has_sample(curve, timestamp));
    assert(place == i) by {
        if place < i {
            assert((by_timestamp())(curve[place]) < (by_timestamp())(curve[i]));
        } else if i < place {
            assert((by_timestamp())(curve[i]) < (by_timestamp())(curve[place]));
        }
    }
    assert(curve.update(i, curve[i]) =~= curve);
}

/// After a change the curve holds the recorded count at the time of the
/// change.
pub proof fn lemma_curve_after_holds(curve: Seq<RewardRate>, timestamp: u64, rate: u64) -> (i: int)
    requires
        curve_wf(curve),
    ensures
        0 <= i < curve_after(curve, timestamp, rate).len(),
        curve_after(curve, timestamp, rate)[i] == (RewardRate { timestamp, rate }),
{
    let place = lemma_curve_after_wf(curve, timestamp, rate);
    place
}

/// Applying expirations keeps a curve well formed and leaves the pending
/// expirations alone.
pub proof fn lemma_expire_all_wf(term: Term, due: Seq<u64>)
    requires
        curve_wf(term.samples),
    ensures
        curve_wf(expire_all(term, due).samples),
        expire_all(term, due).expirations == term.expirations,
    decreases due.len(),
{
    if due.len() > 0 {
        lemma_expire_all_wf(term, due.drop_last());
        let before = expire_all(term, due.drop_last());
        lemma_curve_after_wf(before.samples, due.last(), new_total(before.total, -1));
    }
}

/// Settling keeps a curve well formed.
pub proof fn lemma_settle_wf(term: Term, as_of: u64)
    requires
        curve_wf(term.samples),
    ensures
        curve_wf(settle(term, as_of).samples),
{
    lemma_expire_all_wf(term, due_times(term.expirations, as_of));
}

} // verus!
