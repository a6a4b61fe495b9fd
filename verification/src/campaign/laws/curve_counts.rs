//! The curve counts the positions that are locked: every sample of a
//! term's curve holds the number of positions that were locked at its time.

use vstd::prelude::*;
use crate::campaign::accrual::settle_at;
use crate::campaign::curve::{
    by_time, by_timestamp, curve_after, curve_wf, due_times, expire_all, is_due, is_pending,
    lemma_curve_after_wf, new_total, settle, Term,
};
use crate::campaign::laws::active_count::{
    active_at, ends_of, event_time, events_wf, lemma_active_are_pending, lemma_due_or_pending,
    lemma_pending_later, lemma_term_after, settled_time, staked_by, term_after, TermEvent,
};
use crate::campaign::sorting::{
    ascending, lemma_sort_ascending, lemma_sort_filter_len, lemma_sort_keeps,
};
use crate::campaign::state::RewardRate;

verus! {

/// Every sample of `samples` holds the number of positions that `events`
/// had locked at its time.
pub open spec fn counts_active(samples: Seq<RewardRate>, events: Seq<TermEvent>) -> bool {
    forall|j: int|
        0 <= j < samples.len() ==> (#[trigger] samples[j]).rate == active_at(
            events,
            samples[j].timestamp,
        )
}

/// No sample of `samples` is later than `time`.
pub open spec fn reaches(samples: Seq<RewardRate>, time: u64) -> bool {
    forall|j: int| 0 <= j < samples.len() ==> (#[trigger] samples[j]).timestamp <= time
}

/// Of the times that are not later than a time, those that are not later
/// than an earlier time are all that are not later than the earlier time.
proof fn lemma_due_earlier(times: Seq<u64>, earlier: u64, later: u64)
    requires
        earlier <= later,
    ensures
        times.filter(is_due(later)).filter(is_due(earlier)) == times.filter(is_due(earlier)),
    decreases times.len(),
{
    reveal(Seq::filter);
    if times.len() > 0 {
        let front = times.drop_last();
        lemma_due_earlier(front, earlier, later);
        if times.last() <= later {
            front.filter(is_due(later)).lemma_filter_push(times.last(), is_due(earlier));
        }
    }
}

/// What applying expirations in ascending order does to a curve that lies
/// before them: the samples of the curve stay, and behind them stands, for
/// each time of an expiration, a sample with the total less the
/// expirations up to that time.
#[verifier::rlimit(50)]
proof fn lemma_expire_all_appends(term: Term, due: Seq<u64>, bound: u64)
    requires
        curve_wf(term.samples),
        reaches(term.samples, bound),
        ascending(due, by_time()),
        forall|i: int| 0 <= i < due.len() ==> due[i] > bound,
        term.total >= due.len(),
    ensures
        ({
            let after = expire_all(term, due);
            let kept = term.samples.len() as int;
            &&& curve_wf(after.samples)
            &&& after.total == term.total - due.len()
            &&& after.expirations == term.expirations
            &&& after.samples.len() >= kept
            &&& after.samples.take(kept) == term.samples
            &&& forall|j: int|
                kept <= j < after.samples.len() ==> bound < (#[trigger] after.samples[j]).timestamp
                    && after.samples[j].rate == term.total - due.filter(
                    is_due(after.samples[j].timestamp),
                ).len()
            &&& due.len() > 0 ==> reaches(after.samples, due.last())
        }),
    decreases due.len(),
{
    reveal(Seq::filter);
    let kept = term.samples.len() as int;
    if due.len() == 0 {
        assert(term.samples.take(kept) =~= term.samples);
    } else {
        let front = due.drop_last();
        let x = due.last();
        assert(ascending(front, by_time())) by {
            assert forall|i: int, j: int| 0 <= i < j < front.len() implies (by_time())(front[i])
                <= (by_time())(front[j]) by {
                assert((by_time())(due[i]) <= (by_time())(due[j]));
            }
        }
        assert forall|i: int| 0 <= i < front.len() implies front[i] > bound by {
            assert(front[i] == due[i]);
        }
        lemma_expire_all_appends(term, front, bound);
        let before = expire_all(term, front);
        let total = new_total(before.total, -1);
        let sample = RewardRate { timestamp: x, rate: total };
        let after = curve_after(before.samples, x, total);
        assert(due[due.len() - 1] > bound);
        assert(reaches(before.samples, x)) by {
            assert forall|j: int| 0 <= j < before.samples.len() implies (
            #[trigger] before.samples[j]).timestamp <= x by {
                if front.len() > 0 {
                    assert((by_time())(due[front.len() - 1]) <= (by_time())(due[due.len() - 1]));
                    assert(front.last() == due[front.len() - 1]);
                } else {
                    assert(before.samples[j] == term.samples.take(kept)[j]);
                }
            }
        }
        let place = lemma_curve_after_wf(before.samples, x, total);
        assert(place >= kept) by {
            if place < kept {
                assert(before.samples[place] == before.samples.take(kept)[place]);
                assert(term.samples[place].timestamp <= bound);
            }
        }
        assert(place >= before.samples.len() - 1) by {
            if place < before.samples.len() - 1 {
                assert(before.samples[place + 1].timestamp > x);
            }
        }
        assert(after.take(kept) =~= before.samples.take(kept));
        assert forall|j: int| kept <= j < after.len() implies bound < (#[trigger] after[j]).timestamp
            && after[j].rate == term.total - due.filter(is_due(after[j].timestamp)).len() by {
            front.lemma_filter_push(x, is_due(after[j].timestamp));
            assert(due =~= front.push(x));
            if j == place {
                assert(after[j] == sample);
                lemma_all_due(front, x);
            } else {
                assert(after[j] == before.samples[j]);
                assert(j < place);
                assert(before.samples[j].timestamp < x);
            }
        }
        assert forall|j: int| 0 <= j < after.len() implies (#[trigger] after[j]).timestamp <= x by {
            if j != place {
                assert(j < place);
                assert(after[j] == before.samples[j]);
            }
        }
    }
}

/// Of times of which none is later than `time`, all are not later than it.
proof fn lemma_all_due(times: Seq<u64>, time: u64)
    requires
        ascending(times, by_time()),
        times.len() > 0 ==> times.last() <= time,
    ensures
        times.filter(is_due(time)).len() == times.len(),
    decreases times.len(),
{
    reveal(Seq::filter);
    if times.len() > 0 {
        let front = times.drop_last();
        assert(ascending(front, by_time())) by {
            assert forall|i: int, j: int| 0 <= i < j < front.len() implies (by_time())(front[i])
                <= (by_time())(front[j]) by {
                assert((by_time())(times[i]) <= (by_time())(times[j]));
            }
        }
        if front.len() > 0 {
            assert((by_time())(times[front.len() - 1]) <= (by_time())(times[times.len() - 1]));
            assert(front.last() == times[front.len() - 1]);
        }
        lemma_all_due(front, time);
    }
}

/// A term with no position joining at or after a time has none joining at
/// or after a later time.
proof fn lemma_staked_by_later(events: Seq<TermEvent>, earlier: u64, later: u64)
    requires
        staked_by(events, earlier),
        earlier <= later,
    ensures
        staked_by(events, later),
{
}

/// No position joins a term later than the term was last settled.
proof fn lemma_staked_by_settled(events: Seq<TermEvent>, time: u64)
    requires
        events_wf(events, time),
    ensures
        staked_by(events, settled_time(events)),
        settled_time(events) <= time,
    decreases events.len(),
{
    if events.len() > 0 {
        let front = events.drop_last();
        let at = event_time(events.last());
        assert(event_time(events[events.len() - 1]) <= time);
        assert(events_wf(front, at)) by {
            assert forall|i: int| 0 <= i < front.len() implies front[i] == events[i] by {}
        }
        lemma_staked_by_settled(front, at);
        assert forall|i: int| 0 <= i < events.len() implies (#[trigger] events[i] is Stake
            ==> event_time(events[i]) <= settled_time(events)) by {
            if i < front.len() {
                assert(front[i] == events[i]);
            }
        }
    }
}

/// One event more changes the number of positions locked at a time only
/// where the event is the staking of a position that is locked then.
proof fn lemma_active_step(events: Seq<TermEvent>, event: TermEvent, time: u64)
    ensures
        active_at(events.push(event), time) == active_at(events, time) + if (event
            matches TermEvent::Stake { at, end } && at <= time < end) {
            1nat
        } else {
            0nat
        },
{
    assert(events.push(event).drop_last() =~= events);
}

/// The term that the events leave, settled at a time not before its last
/// settlement: its curve is well formed, counts the locked positions and
/// reaches up to the settlement, and its total counts the positions locked
/// then.
#[verifier::rlimit(50)]
proof fn lemma_settled_counts(events: Seq<TermEvent>, at: u64)
    requires
        events_wf(events, at),
        events.len() <= u64::MAX,
        curve_wf(term_after(events).samples),
        counts_active(term_after(events).samples, events),
        reaches(term_after(events).samples, settled_time(events)),
    ensures
        ({
            let settled = settle(term_after(events), at);
            &&& curve_wf(settled.samples)
            &&& counts_active(settled.samples, events)
            &&& reaches(settled.samples, at)
            &&& settled.total == active_at(events, at)
            &&& settled.total == settled.expirations.len()
        }),
{
    let term = term_after(events);
    let bound = settled_time(events);
    let ends = ends_of(events);
    let pending = term.expirations;
    lemma_term_after(events, at);
    lemma_staked_by_settled(events, at);
    let unsorted = pending.filter(is_due(at));
    let due = due_times(pending, at);
    lemma_sort_ascending(unsorted, by_time());
    pending.lemma_filter_len(is_due(at));
    assert forall|i: int| 0 <= i < pending.len() implies (is_pending(bound))(pending[i]) by {
        ends.lemma_filter_pred(is_pending(bound), i);
    }
    assert forall|i: int| 0 <= i < unsorted.len() implies (is_pending(bound))(unsorted[i]) by {
        pending.lemma_filter_contains_rev(is_due(at), unsorted[i]);
        let k = choose|k: int| 0 <= k < pending.len() && pending[k] == unsorted[i];
        assert((is_pending(bound))(pending[k]));
    }
    lemma_sort_keeps(unsorted, by_time(), is_pending(bound));
    assert forall|i: int| 0 <= i < due.len() implies due[i] > bound by {
        assert((is_pending(bound))(due[i]));
    }
    assert forall|i: int| 0 <= i < unsorted.len() implies (is_due(at))(unsorted[i]) by {
        pending.lemma_filter_pred(is_due(at), i);
    }
    lemma_sort_keeps(unsorted, by_time(), is_due(at));
    lemma_expire_all_appends(term, due, bound);
    let settled = settle(term, at);
    let kept = term.samples.len() as int;
    lemma_due_or_pending(pending, at);
    lemma_pending_later(ends, bound, at);
    lemma_staked_by_later(events, bound, at);
    lemma_active_are_pending(events, at);
    assert(reaches(settled.samples, at)) by {
        assert forall|j: int| 0 <= j < settled.samples.len() implies (
        #[trigger] settled.samples[j]).timestamp <= at by {
            if due.len() > 0 {
                assert((is_due(at))(due[due.len() - 1]));
            } else {
                assert(settled.samples[j] == settled.samples.take(kept)[j]);
            }
        }
    }
    assert forall|j: int| 0 <= j < settled.samples.len() implies (
    #[trigger] settled.samples[j]).rate == active_at(events, settled.samples[j].timestamp) by {
        let sample = settled.samples[j];
        if j < kept {
            assert(sample == settled.samples.take(kept)[j]);
        } else {
            let time = sample.timestamp;
            lemma_sort_filter_len(unsorted, by_time(), is_due(time));
            lemma_due_earlier(pending, time, at);
            lemma_due_or_pending(pending, time);
            lemma_pending_later(ends, bound, time);
            lemma_staked_by_later(events, bound, time);
            lemma_active_are_pending(events, time);
        }
    }
}

/// The curve that events leave counts the locked positions.
#[verifier::rlimit(50)]
pub proof fn lemma_events_count(events: Seq<TermEvent>, time: u64)
    requires
        events_wf(events, time),
        events.len() <= u64::MAX,
    ensures
        curve_wf(term_after(events).samples),
        counts_active(term_after(events).samples, events),
        reaches(term_after(events).samples, settled_time(events)),
    decreases events.len(),
{
    if events.len() > 0 {
        let front = events.drop_last();
        let event = events.last();
        let at = event_time(event);
        assert(events =~= front.push(event));
        assert(events_wf(front, at)) by {
            assert forall|i: int| 0 <= i < front.len() implies front[i] == events[i] by {}
        }
        lemma_events_count(front, at);
        let before = term_after(front);
        match event {
            TermEvent::Unstake { .. } => {
                assert forall|j: int| 0 <= j < before.samples.len() implies (
                #[trigger] before.samples[j]).rate == active_at(
                    events,
                    before.samples[j].timestamp,
                ) by {
                    lemma_active_step(front, event, before.samples[j].timestamp);
                }
            },
            _ => {
                lemma_settled_counts(front, at);
                lemma_term_after(front, at);
                let settled = settle(before, at);
                let change: int = if event is Stake {
                    1
                } else {
                    0
                };
                let total = new_total(settled.total, change);
                lemma_active_step(front, event, at);
                assert(events[events.len() - 1] == event);
                assert(total == active_at(events, at));
                let after = term_after(events).samples;
                assert(after == curve_after(settled.samples, at, total));
                let place = lemma_curve_after_wf(settled.samples, at, total);
                assert forall|j: int| 0 <= j < after.len() implies (#[trigger] after[j]).rate
                    == active_at(events, after[j].timestamp) && after[j].timestamp <= at by {
                    if j != place {
                        let k = if after.len() == settled.samples.len() || j < place {
                            j
                        } else {
                            j - 1
                        };
                        assert(after[j] == settled.samples[k]);
                        assert(settled.samples[k].timestamp != at);
                        lemma_active_step(front, event, settled.samples[k].timestamp);
                    }
                }
            },
        }
    }
}

/// The curve counts the positions that are locked.
///
/// After any stake and unstake events, and integrations in between, in the
/// order of their times, the curve of the term settled at a time not before
/// the last event is well formed, ends with a sample at that time, and holds
/// in every sample the number of staked positions that were locked at the
/// time of the sample.
pub proof fn lemma_curve_counts_active(events: Seq<TermEvent>, time: u64)
    requires
        events_wf(events, time),
        events.len() < u64::MAX,
    ensures
        ({
            let samples = settle_at(term_after(events), time).samples;
            &&& curve_wf(samples)
            &&& counts_active(samples, events)
            &&& samples.len() > 0
            &&& samples.last().timestamp == time
        }),
{
    let settling = TermEvent::Settle { at: time };
    let all = events.push(settling);
    assert(all.drop_last() =~= events);
    assert(events_wf(all, time)) by {
        assert forall|i: int, j: int| 0 <= i < j < all.len() implies event_time(all[i])
            <= event_time(all[j]) by {
            if j < events.len() {
                assert(all[i] == events[i] && all[j] == events[j]);
            } else {
                assert(all[i] == events[i]);
            }
        }
        assert forall|i: int| 0 <= i < all.len() implies event_time(#[trigger] all[i])
            <= time by {
            if i < events.len() {
                assert(all[i] == events[i]);
            }
        }
        assert forall|i: int| 0 <= i < all.len() implies (#[trigger] all[i]
            matches TermEvent::Stake { at, end } ==> at < end) by {
            if i < events.len() {
                assert(all[i] == events[i]);
            }
        }
    }
    lemma_events_count(all, time);
    let samples = settle_at(term_after(events), time).samples;
    assert(samples == term_after(all).samples);
    assert forall|j: int| 0 <= j < samples.len() implies (#[trigger] samples[j]).rate
        == active_at(events, samples[j].timestamp) by {
        lemma_active_step(events, settling, samples[j].timestamp);
    }
    lemma_events_count(events, time);
    lemma_settled_counts(events, time);
    let settled = settle(term_after(events), time);
    let place = lemma_curve_after_wf(settled.samples, time, new_total(settled.total, 0));
    assert(samples[place].timestamp == time);
    assert(place == samples.len() - 1) by {
        if place < samples.len() - 1 {
            assert((by_timestamp())(samples[place]) < (by_timestamp())(samples[samples.len() - 1]));
        }
    }
}

} // verus!
