//! The total of a term counts the positions that are locked.

use vstd::prelude::*;
use crate::campaign::accrual::settle_at;
use crate::campaign::curve::{
    by_time, due_times, expire_all, is_due, is_pending, pending_times, settle, stake, Term,
};
use crate::campaign::sorting::lemma_sort_ascending;

verus! {

/// What happens to a term, as far as its count of active positions goes.
pub enum TermEvent {
    /// A position joins the term at `at`, locked until `end`.
    Stake { at: u64, end: u64 },
    /// A position is taken out of the campaign at `at`. The term keeps
    /// counting it until its lock runs out.
    Unstake { at: u64 },
    /// A position of the term is integrated at `at` and the term that the
    /// integration leaves is kept, as a claim or a compaction does.
    Settle { at: u64 },
}

/// The time of an event.
pub open spec fn event_time(event: TermEvent) -> u64 {
    match event {
        TermEvent::Stake { at, .. } => at,
        TermEvent::Unstake { at } => at,
        TermEvent::Settle { at } => at,
    }
}

/// A term into which nothing was staked yet.
pub open spec fn empty_term() -> Term {
    Term { samples: Seq::empty(), total: 0, expirations: Seq::empty() }
}

/// The term after `events`, from an empty term.
pub open spec fn term_after(events: Seq<TermEvent>) -> Term
    decreases events.len(),
{
    if events.len() == 0 {
        empty_term()
    } else {
        let before = term_after(events.drop_last());
        match events.last() {
            TermEvent::Stake { at, end } => stake(before, end, at),
            TermEvent::Unstake { .. } => before,
            TermEvent::Settle { at } => settle_at(before, at),
        }
    }
}

/// How many of the positions that `events` staked are locked at `time`:
/// those that joined at or before `time` and whose lock ends behind it.
pub open spec fn active_at(events: Seq<TermEvent>, time: u64) -> nat
    decreases events.len(),
{
    if events.len() == 0 {
        0
    } else {
        let counted: nat = match events.last() {
            TermEvent::Stake { at, end } => if at <= time < end {
                1
            } else {
                0
            },
            _ => 0,
        };
        active_at(events.drop_last(), time) + counted
    }
}

/// The events are in the order of their times, none later than `time`, and
/// every position is staked for some time.
pub open spec fn events_wf(events: Seq<TermEvent>, time: u64) -> bool {
    &&& forall|i: int, j: int|
        0 <= i < j < events.len() ==> event_time(events[i]) <= event_time(events[j])
    &&& forall|i: int| 0 <= i < events.len() ==> event_time(#[trigger] events[i]) <= time
    &&& forall|i: int|
        0 <= i < events.len() ==> (#[trigger] events[i] matches TermEvent::Stake { at, end }
            ==> at < end)
}

/// The ends of the positions that `events` staked, in their order.
pub open spec fn ends_of(events: Seq<TermEvent>) -> Seq<u64>
    decreases events.len(),
{
    if events.len() == 0 {
        Seq::empty()
    } else {
        match events.last() {
            TermEvent::Stake { end, .. } => ends_of(events.drop_last()).push(end),
            _ => ends_of(events.drop_last()),
        }
    }
}

/// The time at which the term was last settled by `events`.
pub open spec fn settled_time(events: Seq<TermEvent>) -> u64
    decreases events.len(),
{
    if events.len() == 0 {
        0
    } else {
        match events.last() {
            TermEvent::Unstake { .. } => settled_time(events.drop_last()),
            _ => event_time(events.last()),
        }
    }
}

/// A term is not settled later than its last event.
pub proof fn lemma_settled_time(events: Seq<TermEvent>, time: u64)
    requires
        forall|i: int| 0 <= i < events.len() ==> event_time(#[trigger] events[i]) <= time,
    ensures
        settled_time(events) <= time,
    decreases events.len(),
{
    if events.len() > 0 {
        let front = events.drop_last();
        assert forall|i: int| 0 <= i < front.len() implies event_time(#[trigger] front[i])
            <= time by {
            assert(front[i] == events[i]);
        }
        lemma_settled_time(front, time);
    }
}

/// Applying expirations lowers the total by one for each, down to zero,
/// in whatever order they come.
pub proof fn lemma_expire_all_total(term: Term, due: Seq<u64>)
    ensures
        expire_all(term, due).total == if term.total >= due.len() {
            term.total - due.len()
        } else {
            0
        },
    decreases due.len(),
{
    if due.len() > 0 {
        lemma_expire_all_total(term, due.drop_last());
    }
}

/// Every expiration has either run out at a time or lies behind it.
pub proof fn lemma_due_or_pending(expirations: Seq<u64>, as_of: u64)
    ensures
        expirations.filter(is_due(as_of)).len() + expirations.filter(is_pending(as_of)).len()
            == expirations.len(),
    decreases expirations.len(),
{
    reveal(Seq::filter);
    if expirations.len() > 0 {
        lemma_due_or_pending(expirations.drop_last(), as_of);
    }
}

/// The expirations that lie behind a time lie behind every earlier time.
pub proof fn lemma_pending_later(expirations: Seq<u64>, earlier: u64, later: u64)
    requires
        earlier <= later,
    ensures
        pending_times(pending_times(expirations, earlier), later) == pending_times(
            expirations,
            later,
        ),
    decreases expirations.len(),
{
    reveal(Seq::filter);
    if expirations.len() > 0 {
        let front = expirations.drop_last();
        let last = expirations.last();
        lemma_pending_later(front, earlier, later);
        if last > earlier {
            pending_times(front, earlier).lemma_filter_push(last, is_pending(later));
        }
    }
}

/// The total of a term settled at `as_of`, where the total counts the
/// term's expirations: the number of those that lie behind `as_of`.
pub proof fn lemma_settle_total(term: Term, as_of: u64)
    requires
        term.total == term.expirations.len(),
    ensures
        settle(term, as_of).total == pending_times(term.expirations, as_of).len(),
        settle(term, as_of).expirations == pending_times(term.expirations, as_of),
{
    let due = due_times(term.expirations, as_of);
    lemma_sort_ascending(term.expirations.filter(is_due(as_of)), by_time());
    lemma_expire_all_total(term, due);
    lemma_due_or_pending(term.expirations, as_of);
}

/// After events in the order of their times, the term's total counts its
/// expirations, and these are the ends that lie behind the time at which
/// the term was last settled.
pub proof fn lemma_term_after(events: Seq<TermEvent>, time: u64)
    requires
        events_wf(events, time),
        events.len() <= u64::MAX,
    ensures
        term_after(events).total == term_after(events).expirations.len(),
        term_after(events).expirations == pending_times(ends_of(events), settled_time(events)),
        ends_of(events).len() <= events.len(),
        settled_time(events) <= time,
    decreases events.len(),
{
    reveal(Seq::filter);
    lemma_settled_time(events, time);
    if events.len() > 0 {
        let front = events.drop_last();
        let before = term_after(front);
        let at = event_time(events.last());
        assert(events_wf(front, at)) by {
            assert forall|i: int| 0 <= i < front.len() implies front[i] == events[i] by {}
        }
        lemma_term_after(front, at);
        let earlier = settled_time(front);
        pending_times(ends_of(front), at).lemma_filter_len(is_pending(at));
        ends_of(front).lemma_filter_len(is_pending(at));
        ends_of(front).lemma_filter_len(is_pending(earlier));
        match events.last() {
            TermEvent::Stake { at, end } => {
                lemma_settle_total(before, at);
                lemma_pending_later(ends_of(front), earlier, at);
                ends_of(front).lemma_filter_push(end, is_pending(at));
            },
            TermEvent::Unstake { at } => {},
            TermEvent::Settle { at } => {
                lemma_settle_total(before, at);
                lemma_pending_later(ends_of(front), earlier, at);
            },
        }
    }
}

/// No position joins at `time` or later.
pub open spec fn staked_by(events: Seq<TermEvent>, time: u64) -> bool {
    forall|i: int|
        0 <= i < events.len() ==> (#[trigger] events[i] is Stake ==> event_time(events[i])
            <= time)
}

/// Where every position joined at or before `time`, those that are locked
/// at `time` are those whose lock ends behind it.
pub proof fn lemma_active_are_pending(events: Seq<TermEvent>, time: u64)
    requires
        staked_by(events, time),
    ensures
        active_at(events, time) == pending_times(ends_of(events), time).len(),
    decreases events.len(),
{
    reveal(Seq::filter);
    if events.len() > 0 {
        let front = events.drop_last();
        assert(staked_by(front, time)) by {
            assert forall|i: int| 0 <= i < front.len() implies (#[trigger] front[i] is Stake
                ==> event_time(front[i]) <= time) by {
                assert(front[i] == events[i]);
            }
        }
        lemma_active_are_pending(front, time);
        assert(events[events.len() - 1] is Stake ==> event_time(events[events.len() - 1])
            <= time);
        match events.last() {
            TermEvent::Stake { at, end } => {
                ends_of(front).lemma_filter_push(end, is_pending(time));
            },
            _ => {},
        }
    }
}

/// The count of a term is the number of its active positions: after any
/// stake and unstake events, and integrations in between, in the order of
/// their times, the total of the term settled at a time not before the
/// last event is the number of staked positions that joined at or before
/// that time and whose lock ends behind it.
pub proof fn lemma_active_count(events: Seq<TermEvent>, time: u64)
    requires
        events_wf(events, time),
        events.len() <= u64::MAX,
    ensures
        settle(term_after(events), time).total == active_at(events, time),
{
    lemma_term_after(events, time);
    lemma_settle_total(term_after(events), time);
    lemma_pending_later(ends_of(events), settled_time(events), time);
    lemma_active_are_pending(events, time);
}

} // verus!
