//! The rewards of a campaign are covered by its balance.

use vstd::prelude::*;
use vstd::arithmetic::div_mod::lemma_div_is_ordered;
use crate::campaign::accrual::settle_at;
use crate::campaign::contract::emission;
use crate::campaign::curve::{
    by_time, by_timestamp, due_times, expire_all, has_sample, is_due, is_pending,
    lemma_first_sample, new_total, pending_times, record, settle, Term, upsert,
};
use crate::campaign::laws::active_count::{event_time, events_wf, term_after, TermEvent};
use crate::campaign::laws::compacted::{
    ledger_after, lemma_compaction_changes_nothing, lemma_steps_of_from, Move, moves_from, moves_wf,
    steps_of,
};
use crate::campaign::laws::conservation::{
    lemma_emission_within_balance, lemma_term_conservation, stays_of, total_accrued,
};
use crate::campaign::laws::history::{
    book_after, events_of, lemma_earned_within_accrued, lemma_events_of, Step, step_time, steps_wf,
    total_earned,
};
use crate::campaign::sorting::lemma_sort_keeps;
use crate::campaign::state::{LockupTerm, percent_sum, RewardRate};

verus! {

/// Whether a sample is not earlier than `start`.
spec fn sample_from(start: u64) -> spec_fn(RewardRate) -> bool {
    |sample: RewardRate| sample.timestamp >= start
}

/// Whether a time is not earlier than `start`.
spec fn time_from(start: u64) -> spec_fn(u64) -> bool {
    |time: u64| time >= start
}

/// No sample and no expiration of `term` is earlier than `start`.
spec fn term_from(term: Term, start: u64) -> bool {
    &&& forall|j: int| 0 <= j < term.samples.len() ==> (sample_from(start))(term.samples[j])
    &&& forall|j: int| 0 <= j < term.expirations.len() ==> (time_from(start))(term.expirations[j])
}

/// A change at a time not before `start` leaves no sample before `start`.
proof fn lemma_record_from(term: Term, timestamp: u64, change: int, start: u64)
    requires
        term_from(term, start),
        timestamp >= start,
    ensures
        term_from(record(term, timestamp, change), start),
{
    let sample = RewardRate { timestamp, rate: new_total(term.total, change) };
    let changed = upsert(term.samples, sample);
    assert forall|j: int| 0 <= j < changed.len() implies (sample_from(start))(changed[j]) by {
        if has_sample(term.samples, timestamp) {
            lemma_first_sample(term.samples, timestamp);
        }
        if j < term.samples.len() && changed[j] != sample {
            assert(changed[j] == term.samples[j]);
        }
    }
    lemma_sort_keeps(changed, by_timestamp(), sample_from(start));
}

/// Expirations of a term that has nothing before `start` leave no sample
/// before `start`.
proof fn lemma_expire_all_from(term: Term, due: Seq<u64>, start: u64)
    requires
        term_from(term, start),
        forall|i: int| 0 <= i < due.len() ==> (time_from(start))(due[i]),
    ensures
        term_from(expire_all(term, due), start),
    decreases due.len(),
{
    if due.len() > 0 {
        let front = due.drop_last();
        assert forall|i: int| 0 <= i < front.len() implies (time_from(start))(front[i]) by {
            assert(front[i] == due[i]);
        }
        lemma_expire_all_from(term, front, start);
        assert((time_from(start))(due[due.len() - 1]));
        lemma_record_from(expire_all(term, front), due.last(), -1, start);
    }
}

/// Settling a term that has nothing before `start` leaves nothing before
/// `start`.
proof fn lemma_settle_from(term: Term, as_of: u64, start: u64)
    requires
        term_from(term, start),
    ensures
        term_from(settle(term, as_of), start),
{
    let unsorted = term.expirations.filter(is_due(as_of));
    assert forall|i: int| 0 <= i < unsorted.len() implies (time_from(start))(unsorted[i]) by {
        term.expirations.lemma_filter_contains_rev(is_due(as_of), unsorted[i]);
        let k = choose|k: int| 0 <= k < term.expirations.len() && term.expirations[k]
            == unsorted[i];
        assert((time_from(start))(term.expirations[k]));
    }
    lemma_sort_keeps(unsorted, by_time(), time_from(start));
    lemma_expire_all_from(term, due_times(term.expirations, as_of), start);
    let pending = pending_times(term.expirations, as_of);
    assert forall|i: int| 0 <= i < pending.len() implies (time_from(start))(pending[i]) by {
        term.expirations.lemma_filter_contains_rev(
            is_pending(as_of),
            pending[i],
        );
        let k = choose|k: int| 0 <= k < term.expirations.len() && term.expirations[k]
            == pending[i];
        assert((time_from(start))(term.expirations[k]));
    }
}

/// No event is earlier than `start`.
pub open spec fn events_from(events: Seq<TermEvent>, start: u64) -> bool {
    forall|i: int| 0 <= i < events.len() ==> event_time(#[trigger] events[i]) >= start
}

/// Events of which none is earlier than `start` leave a term with nothing
/// before `start`.
proof fn lemma_term_after_from(events: Seq<TermEvent>, time: u64, start: u64)
    requires
        events_wf(events, time),
        events_from(events, start),
    ensures
        term_from(term_after(events), start),
    decreases events.len(),
{
    if events.len() > 0 {
        let front = events.drop_last();
        let event = events.last();
        assert(event == events[events.len() - 1]);
        assert(events_wf(front, time) && events_from(front, start)) by {
            assert forall|i: int| 0 <= i < front.len() implies front[i] == events[i] by {}
        }
        lemma_term_after_from(front, time, start);
        let before = term_after(front);
        match event {
            TermEvent::Stake { at, end } => {
                lemma_settle_from(before, at, start);
                let settled = settle(before, at);
                let joined = Term { expirations: settled.expirations.push(end), ..settled };
                assert forall|j: int| 0 <= j < joined.expirations.len() implies (time_from(start))(
                    joined.expirations[j],
                ) by {
                    if j < settled.expirations.len() {
                        assert(joined.expirations[j] == settled.expirations[j]);
                    }
                }
                lemma_record_from(joined, at, 1, start);
            },
            TermEvent::Unstake { .. } => {},
            TermEvent::Settle { at } => {
                lemma_settle_from(before, at, start);
                lemma_record_from(settle(before, at), at, 0, start);
            },
        }
    }
}

/// What the positions of all terms earn together up to the end of the
/// campaign: for each term, what the positions that its events staked earn
/// on its curve, settled at the end.
pub open spec fn campaign_accrued(
    terms: Seq<LockupTerm>,
    histories: Seq<Seq<TermEvent>>,
    end: u64,
    reward_per_second: u128,
) -> int
    decreases terms.len(),
{
    if terms.len() == 0 || histories.len() != terms.len() {
        0
    } else {
        campaign_accrued(terms.drop_last(), histories.drop_last(), end, reward_per_second)
            + total_accrued(
            settle_at(term_after(histories.last()), end).samples,
            stays_of(histories.last(), end),
            reward_per_second,
            terms.last().percent,
        )
    }
}

/// What the positions of all terms earn together is no more than the
/// terms' shares of what the campaign emits from its start to its end.
#[verifier::rlimit(50)]
proof fn lemma_campaign_within_shares(
    terms: Seq<LockupTerm>,
    histories: Seq<Seq<TermEvent>>,
    start: u64,
    end: u64,
    reward_per_second: u128,
)
    requires
        histories.len() == terms.len(),
        start <= end,
        forall|t: int|
            0 <= t < histories.len() ==> events_wf(#[trigger] histories[t], end) && events_from(
                histories[t],
                start,
            ) && histories[t].len() < u64::MAX,
    ensures
        campaign_accrued(terms, histories, end, reward_per_second) <= ((end - start)
            * reward_per_second * percent_sum(terms)) / 100,
        0 <= percent_sum(terms),
    decreases terms.len(),
{
    let emitted = (end - start) * reward_per_second;
    assert(0 <= emitted) by (nonlinear_arith)
        requires
            emitted == (end - start) * reward_per_second,
            start <= end,
    ;
    if terms.len() == 0 {
        assert((emitted * 0) / 100 == 0) by (nonlinear_arith);
    } else {
        let front = terms.drop_last();
        let earlier = histories.drop_last();
        let events = histories.last();
        let percent = terms.last().percent;
        assert forall|t: int| 0 <= t < earlier.len() implies events_wf(#[trigger] earlier[t], end)
            && events_from(earlier[t], start) && earlier[t].len() < u64::MAX by {
            assert(earlier[t] == histories[t]);
        }
        assert(events == histories[histories.len() - 1]);
        lemma_campaign_within_shares(front, earlier, start, end, reward_per_second);
        lemma_term_conservation(events, end, reward_per_second, percent);
        lemma_term_after_from(events, end, start);
        lemma_settle_from(term_after(events), end, start);
        lemma_record_from(settle(term_after(events), end), end, 0, start);
        let samples = settle_at(term_after(events), end).samples;
        assert((sample_from(start))(samples[0]));
        let first = samples[0].timestamp;
        let r = reward_per_second as int;
        let p = percent as int;
        assert((end - first) * r * p <= (end - start) * r * p) by (nonlinear_arith)
            requires
                start <= first <= end,
                r >= 0,
                p >= 0,
        ;
        lemma_div_is_ordered((end - first) * r * p, (end - start) * r * p, 100);
        let a = emitted * percent_sum(front);
        let b = emitted * p;
        assert(a >= 0 && b >= 0) by (nonlinear_arith)
            requires
                emitted >= 0,
                percent_sum(front) >= 0,
                p >= 0,
                a == emitted * percent_sum(front),
                b == emitted * p,
        ;
        assert(a / 100 + b / 100 <= (a + b) / 100) by (nonlinear_arith)
            requires
                a >= 0,
                b >= 0,
        ;
        assert(emitted * percent_sum(terms) == a + b) by (nonlinear_arith)
            requires
                percent_sum(terms) == percent_sum(front) + p,
                a == emitted * percent_sum(front),
                b == emitted * p,
        ;
    }
}

/// The rewards of a campaign are covered by its balance.
///
/// Take a campaign whose terms have percentages that add up to one hundred
/// and whose emission was set from `balance` for the time from `start` to
/// `end`. For each term, take any stake and unstake events, and
/// integrations in between, in the order of their times, none before
/// `start` and none behind `end`. Then what the staked positions of all
/// terms earn, each integrated from its start to the end of its lock or to
/// the end of the campaign on the curve of its term, is together no more
/// than `balance`.
pub proof fn lemma_rewards_within_balance(
    terms: Seq<LockupTerm>,
    histories: Seq<Seq<TermEvent>>,
    balance: u128,
    start: u64,
    end: u64,
)
    requires
        percent_sum(terms) == 100,
        histories.len() == terms.len(),
        start < end,
        forall|t: int|
            0 <= t < histories.len() ==> events_wf(#[trigger] histories[t], end) && events_from(
                histories[t],
                start,
            ) && histories[t].len() < u64::MAX,
    ensures
        campaign_accrued(terms, histories, end, emission(balance, end - start)) <= balance,
{
    let reward_per_second = emission(balance, end - start);
    lemma_campaign_within_shares(terms, histories, start, end, reward_per_second);
    lemma_emission_within_balance(balance, end - start);
    let emitted = (end - start) * reward_per_second;
    assert(emitted == reward_per_second * (end - start)) by (nonlinear_arith)
        requires
            emitted == (end - start) * reward_per_second,
    ;
    assert((emitted * 100) / 100 == emitted) by (nonlinear_arith);
}

/// No step is earlier than `start`.
pub open spec fn steps_from(steps: Seq<Step>, start: u64) -> bool {
    forall|i: int| 0 <= i < steps.len() ==> step_time(#[trigger] steps[i]) >= start
}

/// What the steps of each term are to the term.
pub open spec fn histories_of(
    courses: Seq<Seq<Step>>,
    end: u64,
    reward_per_second: u128,
) -> Seq<Seq<TermEvent>> {
    courses.map_values(|steps: Seq<Step>| events_of(steps, end, reward_per_second))
}

/// What the positions of all terms have earned in all after the steps
/// `courses`, one course of steps for each term: what was paid out of them
/// and what is pending in them.
pub open spec fn campaign_earned(
    terms: Seq<LockupTerm>,
    courses: Seq<Seq<Step>>,
    end: u64,
    reward_per_second: u128,
) -> int
    decreases terms.len(),
{
    if terms.len() == 0 || courses.len() != terms.len() {
        0
    } else {
        campaign_earned(terms.drop_last(), courses.drop_last(), end, reward_per_second)
            + total_earned(book_after(courses.last(), end, reward_per_second).holdings)
    }
}

/// What the positions of all terms have earned is no more than what they
/// earn on the curves of their terms, each in one integration.
#[verifier::rlimit(50)]
proof fn lemma_campaign_earned(
    terms: Seq<LockupTerm>,
    courses: Seq<Seq<Step>>,
    start: u64,
    end: u64,
    reward_per_second: u128,
)
    requires
        courses.len() == terms.len(),
        forall|t: int|
            0 <= t < courses.len() ==> steps_wf(#[trigger] courses[t], end, terms[t].percent)
                && steps_from(courses[t], start) && courses[t].len() < u64::MAX,
    ensures
        campaign_earned(terms, courses, end, reward_per_second) <= campaign_accrued(
            terms,
            histories_of(courses, end, reward_per_second),
            end,
            reward_per_second,
        ),
        forall|t: int|
            0 <= t < courses.len() ==> events_wf(
                #[trigger] histories_of(courses, end, reward_per_second)[t],
                end,
            ) && events_from(histories_of(courses, end, reward_per_second)[t], start)
                && histories_of(courses, end, reward_per_second)[t].len() < u64::MAX,
    decreases terms.len(),
{
    let histories = histories_of(courses, end, reward_per_second);
    assert forall|t: int| 0 <= t < courses.len() implies events_wf(#[trigger] histories[t], end)
        && events_from(histories[t], start) && histories[t].len() < u64::MAX by {
        assert(steps_wf(courses[t], end, terms[t].percent));
        lemma_events_of(courses[t], end, terms[t].percent, end, reward_per_second);
        let events = events_of(courses[t], end, reward_per_second);
        assert forall|i: int| 0 <= i < events.len() implies event_time(#[trigger] events[i])
            >= start by {
            assert(step_time(courses[t][i]) >= start);
        }
    }
    if terms.len() > 0 {
        let front = terms.drop_last();
        let earlier = courses.drop_last();
        assert forall|t: int| 0 <= t < earlier.len() implies steps_wf(
            #[trigger] earlier[t],
            end,
            front[t].percent,
        ) && steps_from(earlier[t], start) && earlier[t].len() < u64::MAX by {
            assert(earlier[t] == courses[t]);
            assert(front[t] == terms[t]);
        }
        lemma_campaign_earned(front, earlier, start, end, reward_per_second);
        assert(histories.drop_last() =~= histories_of(earlier, end, reward_per_second));
        assert(histories.last() == events_of(courses.last(), end, reward_per_second));
        assert(courses.last() == courses[courses.len() - 1]);
        assert(terms.last() == terms[terms.len() - 1]);
        lemma_earned_within_accrued(
            courses.last(),
            end,
            terms.last().percent,
            end,
            reward_per_second,
        );
    }
}

/// No reward is made up: what the positions of a campaign have earned is
/// covered by its balance.
///
/// Take a campaign whose terms have percentages that add up to one hundred
/// and whose emission was set from `balance` for the time from `start` to
/// `end`. In each term, let positions be staked, integrated, paid and taken
/// out in any way, in the order of the times of these steps, none before
/// `start` and none behind `end`. Then what was paid out of the positions of
/// all terms and what is pending in them is together no more than
/// `balance`.
pub proof fn lemma_earned_within_balance(
    terms: Seq<LockupTerm>,
    courses: Seq<Seq<Step>>,
    balance: u128,
    start: u64,
    end: u64,
)
    requires
        percent_sum(terms) == 100,
        courses.len() == terms.len(),
        start < end,
        forall|t: int|
            0 <= t < courses.len() ==> steps_wf(#[trigger] courses[t], end, terms[t].percent)
                && steps_from(courses[t], start) && courses[t].len() < u64::MAX,
    ensures
        campaign_earned(terms, courses, end, emission(balance, end - start)) <= balance,
{
    let reward_per_second = emission(balance, end - start);
    lemma_campaign_earned(terms, courses, start, end, reward_per_second);
    lemma_rewards_within_balance(
        terms,
        histories_of(courses, end, reward_per_second),
        balance,
        start,
        end,
    );
}

/// The steps that the moves of each term come to.
pub open spec fn courses_of(
    courses: Seq<Seq<Move>>,
    end: u64,
    reward_per_second: u128,
) -> Seq<Seq<Step>> {
    courses.map_values(|moves: Seq<Move>| steps_of(moves, end, reward_per_second))
}

/// What the positions of all terms have earned in all after the moves
/// `courses`, one course of moves for each term: what was paid out of them
/// and what is pending in them.
pub open spec fn ledgers_earned(
    terms: Seq<LockupTerm>,
    courses: Seq<Seq<Move>>,
    end: u64,
    reward_per_second: u128,
) -> int
    decreases terms.len(),
{
    if terms.len() == 0 || courses.len() != terms.len() {
        0
    } else {
        ledgers_earned(terms.drop_last(), courses.drop_last(), end, reward_per_second)
            + total_earned(ledger_after(courses.last(), end, reward_per_second).holdings)
    }
}

/// With compactions the positions have earned what they have earned
/// without.
proof fn lemma_ledgers_earned(
    terms: Seq<LockupTerm>,
    courses: Seq<Seq<Move>>,
    start: u64,
    end: u64,
    reward_per_second: u128,
)
    requires
        courses.len() == terms.len(),
        forall|t: int|
            0 <= t < courses.len() ==> moves_wf(#[trigger] courses[t], end, terms[t].percent)
                && moves_from(courses[t], start) && steps_of(
                courses[t],
                end,
                reward_per_second,
            ).len() < u64::MAX,
    ensures
        ledgers_earned(terms, courses, end, reward_per_second) == campaign_earned(
            terms,
            courses_of(courses, end, reward_per_second),
            end,
            reward_per_second,
        ),
        forall|t: int|
            0 <= t < courses.len() ==> steps_wf(
                #[trigger] courses_of(courses, end, reward_per_second)[t],
                end,
                terms[t].percent,
            ) && steps_from(courses_of(courses, end, reward_per_second)[t], start) && courses_of(
                courses,
                end,
                reward_per_second,
            )[t].len() < u64::MAX,
    decreases terms.len(),
{
    let expanded = courses_of(courses, end, reward_per_second);
    assert forall|t: int| 0 <= t < courses.len() implies steps_wf(
        #[trigger] expanded[t],
        end,
        terms[t].percent,
    ) && steps_from(expanded[t], start) && expanded[t].len() < u64::MAX by {
        assert(moves_wf(courses[t], end, terms[t].percent));
        lemma_compaction_changes_nothing(courses[t], end, terms[t].percent, end, reward_per_second);
        lemma_steps_of_from(courses[t], start, end, reward_per_second);
    }
    if terms.len() > 0 {
        let front = terms.drop_last();
        let earlier = courses.drop_last();
        assert forall|t: int| 0 <= t < earlier.len() implies moves_wf(
            #[trigger] earlier[t],
            end,
            front[t].percent,
        ) && moves_from(earlier[t], start) && steps_of(earlier[t], end, reward_per_second).len()
            < u64::MAX by {
            assert(earlier[t] == courses[t]);
            assert(front[t] == terms[t]);
        }
        lemma_ledgers_earned(front, earlier, start, end, reward_per_second);
        assert(expanded.drop_last() =~= courses_of(earlier, end, reward_per_second));
        assert(expanded.last() == steps_of(courses.last(), end, reward_per_second));
        assert(courses.last() == courses[courses.len() - 1]);
        assert(terms.last() == terms[terms.len() - 1]);
        lemma_compaction_changes_nothing(
            courses.last(),
            end,
            terms.last().percent,
            end,
            reward_per_second,
        );
    }
}

/// No reward is made up, with or without compaction: what the positions of
/// a campaign have earned is covered by its balance.
///
/// Take a campaign whose terms have percentages that add up to one hundred
/// and whose emission was set from `balance` for the time from `start` to
/// `end`. In each term, let positions be staked, integrated, paid and taken
/// out, and let the curve be compacted, in any way, in the order of the
/// times of these moves, none before `start` and none behind `end`. Then
/// what was paid out of the positions of all terms and what is pending in
/// them is together no more than `balance`.
pub proof fn lemma_campaign_conservation(
    terms: Seq<LockupTerm>,
    courses: Seq<Seq<Move>>,
    balance: u128,
    start: u64,
    end: u64,
)
    requires
        percent_sum(terms) == 100,
        courses.len() == terms.len(),
        start < end,
        forall|t: int|
            0 <= t < courses.len() ==> moves_wf(#[trigger] courses[t], end, terms[t].percent)
                && moves_from(courses[t], start) && steps_of(
                courses[t],
                end,
                emission(balance, end - start),
            ).len() < u64::MAX,
    ensures
        ledgers_earned(terms, courses, end, emission(balance, end - start)) <= balance,
{
    let reward_per_second = emission(balance, end - start);
    lemma_ledgers_earned(terms, courses, start, end, reward_per_second);
    lemma_earned_within_balance(
        terms,
        courses_of(courses, end, reward_per_second),
        balance,
        start,
        end,
    );
}

} // verus!
