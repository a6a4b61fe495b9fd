//! The course of a term: positions are staked, integrated, paid and taken
//! out, and what they have earned in all is never more than the term's
//! share of the emission.

use vstd::prelude::*;
use crate::campaign::accrual::{
    accrual_end, accrued, curve_liability, integrate, lemma_accrued_nonnegative, settle_at,
};
use crate::campaign::curve::{
    curve_after, curve_wf, due_times, expire_all, has_sample, lemma_curve_after_wf,
    lemma_expire_all_wf, new_total, settle, stake, Term,
};
use crate::campaign::laws::active_count::{
    empty_term, event_time, events_wf, settled_time, term_after, TermEvent,
};
use crate::campaign::laws::conservation::{
    lemma_accruals_add_up, lemma_term_conservation, stays_of, total_accrued, Window,
};
use crate::campaign::laws::stability::{
    lemma_accrual_same_settled, lemma_accrual_same_staked, lemma_accrual_stable_settle,
    lemma_accrual_stable_stake, lemma_accrued_grows_with_end, lemma_wf_ascending, settled_by,
};
use crate::campaign::state::{NftInfo, RewardRate};

verus! {

/// What happens to the positions of a term.
pub enum Step {
    /// The position `nft` joins the term at its start.
    Stake { nft: NftInfo },
    /// The position at place `who` is integrated at `at`, and the position
    /// and the term are kept as the integration leaves them.
    Integrate { who: int, at: u64 },
    /// The position at place `who` is integrated at `at`, the position and
    /// the term are kept as the integration leaves them, and the pending
    /// reward of the position is paid out.
    Claim { who: int, at: u64 },
    /// The position at place `who` is integrated at `at` and, where that
    /// closes it, taken out with what it has earned. The term is not
    /// touched.
    Unstake { who: int, at: u64 },
}

/// A position, what was paid out of it so far, and the time at which it
/// was last integrated.
pub struct Holding {
    pub nft: NftInfo,
    pub paid: int,
    pub seen: u64,
}

/// A term and its positions, in the order in which they joined.
pub struct Book {
    pub term: Term,
    pub holdings: Seq<Holding>,
}

/// The time of a step.
pub open spec fn step_time(step: Step) -> u64 {
    match step {
        Step::Stake { nft } => nft.start_time,
        Step::Integrate { at, .. } => at,
        Step::Claim { at, .. } => at,
        Step::Unstake { at, .. } => at,
    }
}

/// Whether a step integrates a position of `book` that is still open, and
/// keeps the term as the integration leaves it.
pub open spec fn integrates(book: Book, step: Step) -> bool {
    match step {
        Step::Integrate { who, .. } => 0 <= who < book.holdings.len()
            && !book.holdings[who].nft.is_end_reward,
        Step::Claim { who, .. } => 0 <= who < book.holdings.len()
            && !book.holdings[who].nft.is_end_reward,
        _ => false,
    }
}

/// The time at which a position was last integrated, after it is
/// integrated at `at`: a closed position is not integrated any more.
pub open spec fn seen_at(held: Holding, at: u64) -> u64 {
    if held.nft.is_end_reward {
        held.seen
    } else {
        at
    }
}

/// The book after a step. A step that names no position changes nothing,
/// and neither does the unstaking of a position that stays open.
pub open spec fn after_step(
    book: Book,
    step: Step,
    campaign_end: u64,
    reward_per_second: u128,
) -> Book {
    match step {
        Step::Stake { nft } => Book {
            term: stake(book.term, nft.end_time, nft.start_time),
            holdings: book.holdings.push(Holding { nft, paid: 0, seen: nft.start_time }),
        },
        Step::Integrate { who, at } => if 0 <= who < book.holdings.len() {
            let held = book.holdings[who];
            let done = integrate(held.nft, book.term, at, campaign_end, reward_per_second);
            Book {
                term: done.1,
                holdings: book.holdings.update(
                    who,
                    Holding { nft: done.0, paid: held.paid, seen: seen_at(held, at) },
                ),
            }
        } else {
            book
        },
        Step::Claim { who, at } => if 0 <= who < book.holdings.len() {
            let held = book.holdings[who];
            let done = integrate(held.nft, book.term, at, campaign_end, reward_per_second);
            Book {
                term: done.1,
                holdings: book.holdings.update(
                    who,
                    Holding {
                        nft: NftInfo { pending_reward: 0, ..done.0 },
                        paid: held.paid + done.0.pending_reward,
                        seen: seen_at(held, at),
                    },
                ),
            }
        } else {
            book
        },
        Step::Unstake { who, at } => if 0 <= who < book.holdings.len() {
            let held = book.holdings[who];
            let done = integrate(held.nft, book.term, at, campaign_end, reward_per_second);
            if done.0.is_end_reward {
                Book {
                    term: book.term,
                    holdings: book.holdings.update(
                        who,
                        Holding { nft: done.0, paid: held.paid, seen: seen_at(held, at) },
                    ),
                }
            } else {
                book
            }
        } else {
            book
        },
    }
}

/// The book after `steps`, from an empty term.
pub open spec fn book_after(steps: Seq<Step>, campaign_end: u64, reward_per_second: u128) -> Book
    decreases steps.len(),
{
    if steps.len() == 0 {
        Book { term: empty_term(), holdings: Seq::empty() }
    } else {
        after_step(
            book_after(steps.drop_last(), campaign_end, reward_per_second),
            steps.last(),
            campaign_end,
            reward_per_second,
        )
    }
}

/// What `steps` are to the term: stakings, settlements where an open
/// position is integrated and the term kept, and nothing else.
pub open spec fn events_of(steps: Seq<Step>, campaign_end: u64, reward_per_second: u128) -> Seq<
    TermEvent,
>
    decreases steps.len(),
{
    if steps.len() == 0 {
        Seq::empty()
    } else {
        let before = book_after(steps.drop_last(), campaign_end, reward_per_second);
        let events = events_of(steps.drop_last(), campaign_end, reward_per_second);
        match steps.last() {
            Step::Stake { nft } => events.push(
                TermEvent::Stake { at: nft.start_time, end: nft.end_time },
            ),
            step => if integrates(before, step) {
                events.push(TermEvent::Settle { at: step_time(step) })
            } else {
                events.push(TermEvent::Unstake { at: step_time(step) })
            },
        }
    }
}

/// The steps are in the order of their times, none later than `time`, and
/// every position that joins is new: open, without pending reward, accrued
/// up to its start, locked for some time, and with the term's share.
pub open spec fn steps_wf(steps: Seq<Step>, time: u64, percent: u128) -> bool {
    &&& forall|i: int, j: int|
        0 <= i < j < steps.len() ==> step_time(steps[i]) <= step_time(steps[j])
    &&& forall|i: int| 0 <= i < steps.len() ==> step_time(#[trigger] steps[i]) <= time
    &&& forall|i: int|
        0 <= i < steps.len() ==> (#[trigger] steps[i] matches Step::Stake { nft } ==> {
            &&& !nft.is_end_reward
            &&& nft.pending_reward == 0
            &&& nft.time_calc == nft.start_time
            &&& nft.start_time < nft.end_time
            &&& nft.lockup_term.percent == percent
        })
}

/// What a position has earned in all: what was paid out of it and what is
/// pending in it.
pub open spec fn earned(held: Holding) -> int {
    held.paid + held.nft.pending_reward
}

/// What the positions `holdings` have earned in all.
pub open spec fn total_earned(holdings: Seq<Holding>) -> int
    decreases holdings.len(),
{
    if holdings.len() == 0 {
        0
    } else {
        total_earned(holdings.drop_last()) + earned(holdings.last())
    }
}

/// A change lets the samples of a curve stand, whatever their counts, and
/// leaves a sample at its time.
proof fn lemma_sample_kept(curve: Seq<RewardRate>, timestamp: u64, rate: u64, time: u64)
    requires
        curve_wf(curve),
        has_sample(curve, time) || time == timestamp,
    ensures
        has_sample(curve_after(curve, timestamp, rate), time),
{
    let place = lemma_curve_after_wf(curve, timestamp, rate);
    let changed = curve_after(curve, timestamp, rate);
    if time == timestamp {
        assert(changed[place].timestamp == time);
    } else {
        let i = choose|i: int| 0 <= i < curve.len() && curve[i].timestamp == time;
        if has_sample(curve, timestamp) || i < place {
            assert(changed[i].timestamp == time);
        } else {
            assert(changed[i + 1].timestamp == time);
        }
    }
}

/// Expirations let the samples of a curve stand.
proof fn lemma_sample_kept_expire(term: Term, due: Seq<u64>, time: u64)
    requires
        curve_wf(term.samples),
        has_sample(term.samples, time),
    ensures
        has_sample(expire_all(term, due).samples, time),
        curve_wf(expire_all(term, due).samples),
    decreases due.len(),
{
    if due.len() > 0 {
        lemma_sample_kept_expire(term, due.drop_last(), time);
        let before = expire_all(term, due.drop_last());
        lemma_sample_kept(before.samples, due.last(), new_total(before.total, -1), time);
        lemma_curve_after_wf(before.samples, due.last(), new_total(before.total, -1));
    }
}

/// A settlement lets the samples of a curve stand and leaves a sample at
/// its time.
proof fn lemma_sample_kept_settle(term: Term, now: u64, time: u64)
    requires
        curve_wf(term.samples),
        has_sample(term.samples, time) || time == now,
    ensures
        has_sample(settle_at(term, now).samples, time),
{
    let due = due_times(term.expirations, now);
    lemma_expire_all_wf(term, due);
    if has_sample(term.samples, time) {
        lemma_sample_kept_expire(term, due, time);
    }
    let settled = settle(term, now);
    lemma_sample_kept(settled.samples, now, new_total(settled.total, 0), time);
}

/// A staking lets the samples of a curve stand and leaves a sample at its
/// time.
proof fn lemma_sample_kept_stake(term: Term, end_time: u64, now: u64, time: u64)
    requires
        curve_wf(term.samples),
        has_sample(term.samples, time) || time == now,
    ensures
        has_sample(stake(term, end_time, now).samples, time),
{
    let due = due_times(term.expirations, now);
    lemma_expire_all_wf(term, due);
    if has_sample(term.samples, time) {
        lemma_sample_kept_expire(term, due, time);
    }
    let settled = settle(term, now);
    lemma_sample_kept(settled.samples, now, new_total(settled.total, 1), time);
}

/// The later of two times.
pub open spec fn later_of(a: u64, b: u64) -> u64 {
    if a < b {
        b
    } else {
        a
    }
}

/// What holds of every position of a book whose term was last settled at
/// `bound`, after steps up to `time`.
///
/// The position is well formed. While it is open, its term was settled when
/// it was last integrated, the curve has a sample at its accrual time, and
/// what it has earned is no more than what it earns on the curve from its
/// start to its accrual time. Once it is closed, what it has earned is no
/// more than what it earns from its start to its accrual time on the curve
/// as a settlement leaves it, at the time at which the position was last
/// integrated or the term last settled, whichever is later.
pub open spec fn holding_ok(
    held: Holding,
    term: Term,
    bound: u64,
    time: u64,
    reward_per_second: u128,
    percent: u128,
) -> bool {
    let nft = held.nft;
    &&& nft.start_time <= nft.time_calc <= nft.end_time
    &&& nft.start_time < nft.end_time
    &&& nft.lockup_term.percent == percent
    &&& nft.time_calc <= held.seen <= time
    &&& held.paid >= 0
    &&& !nft.is_end_reward ==> {
        &&& held.seen <= bound
        &&& nft.time_calc < nft.end_time
        &&& has_sample(term.samples, nft.time_calc)
        &&& earned(held) <= accrued(
            term.samples,
            nft.start_time,
            nft.time_calc,
            reward_per_second,
            percent,
        )
    }
    &&& nft.is_end_reward ==> earned(held) <= accrued(
        settle_at(term, later_of(held.seen, bound)).samples,
        nft.start_time,
        nft.time_calc,
        reward_per_second,
        percent,
    )
}

/// What holds of a book after steps up to `time`: its term is what the
/// steps are to the term, settled at the time of the last settlement, and
/// all is well with its positions.
pub open spec fn book_ok(
    book: Book,
    events: Seq<TermEvent>,
    time: u64,
    reward_per_second: u128,
    percent: u128,
) -> bool {
    &&& book.term == term_after(events)
    &&& settled_by(book.term, settled_time(events))
    &&& settled_time(events) <= time
    &&& forall|i: int|
        0 <= i < book.holdings.len() ==> holding_ok(
            #[trigger] book.holdings[i],
            book.term,
            settled_time(events),
            time,
            reward_per_second,
            percent,
        )
}

/// A position that stands by while its term is settled at a later time is
/// as well as before.
proof fn lemma_bystander_settle(
    held: Holding,
    term: Term,
    bound: u64,
    now: u64,
    reward_per_second: u128,
    percent: u128,
)
    requires
        settled_by(term, bound),
        bound <= now,
        holding_ok(held, term, bound, now, reward_per_second, percent),
    ensures
        holding_ok(held, settle_at(term, now), now, now, reward_per_second, percent),
{
    let nft = held.nft;
    lemma_accrual_stable_settle(
        term,
        bound,
        now,
        nft.start_time,
        if nft.is_end_reward {
            0
        } else {
            nft.time_calc
        },
        reward_per_second,
        percent,
    );
    if nft.is_end_reward {
        let after = settle_at(term, now);
        lemma_accrual_stable_settle(
            after,
            now,
            now,
            nft.start_time,
            nft.time_calc,
            reward_per_second,
            percent,
        );
        lemma_accrual_same_settled(
            term,
            later_of(held.seen, bound),
            now,
            nft.start_time,
            nft.time_calc,
            reward_per_second,
            percent,
        );
    } else {
        lemma_sample_kept_settle(term, now, nft.time_calc);
    }
}

/// A position that stands by while another joins its term at a later time
/// is as well as before.
proof fn lemma_bystander_stake(
    held: Holding,
    term: Term,
    bound: u64,
    end_time: u64,
    now: u64,
    reward_per_second: u128,
    percent: u128,
)
    requires
        settled_by(term, bound),
        bound <= now < end_time,
        holding_ok(held, term, bound, now, reward_per_second, percent),
    ensures
        holding_ok(held, stake(term, end_time, now), now, now, reward_per_second, percent),
{
    let nft = held.nft;
    lemma_accrual_stable_stake(
        term,
        bound,
        end_time,
        now,
        nft.start_time,
        if nft.is_end_reward {
            0
        } else {
            nft.time_calc
        },
        reward_per_second,
        percent,
    );
    if nft.is_end_reward {
        let after = stake(term, end_time, now);
        lemma_accrual_stable_settle(
            after,
            now,
            now,
            nft.start_time,
            nft.time_calc,
            reward_per_second,
            percent,
        );
        lemma_accrual_same_staked(
            term,
            later_of(held.seen, bound),
            end_time,
            now,
            nft.start_time,
            nft.time_calc,
            reward_per_second,
            percent,
        );
    } else {
        lemma_sample_kept_stake(term, end_time, now, nft.time_calc);
    }
}

/// What the integration of an open position at a later time gives: the
/// term settled at that time, and a position that has earned no more than
/// it earns on the curve of that term from its start to its new accrual
/// time.
#[verifier::rlimit(50)]
proof fn lemma_integrated(
    held: Holding,
    term: Term,
    bound: u64,
    now: u64,
    campaign_end: u64,
    reward_per_second: u128,
    percent: u128,
)
    requires
        settled_by(term, bound),
        bound <= now,
        holding_ok(held, term, bound, now, reward_per_second, percent),
        !held.nft.is_end_reward,
    ensures
        ({
            let done = integrate(held.nft, term, now, campaign_end, reward_per_second);
            &&& done.1 == settle_at(term, now)
            &&& settled_by(done.1, now)
            &&& done.0.start_time == held.nft.start_time
            &&& done.0.end_time == held.nft.end_time
            &&& done.0.lockup_term == held.nft.lockup_term
            &&& done.0.start_time <= done.0.time_calc <= done.0.end_time
            &&& done.0.time_calc <= now
            &&& !done.0.is_end_reward ==> done.0.time_calc < done.0.end_time
            &&& has_sample(done.1.samples, done.0.time_calc) || done.0.is_end_reward
            &&& held.paid + done.0.pending_reward <= accrued(
                done.1.samples,
                done.0.start_time,
                done.0.time_calc,
                reward_per_second,
                percent,
            )
        }),
{
    let nft = held.nft;
    let after = settle_at(term, now);
    let end = accrual_end(nft, now);
    lemma_accrual_stable_settle(
        term,
        bound,
        now,
        nft.start_time,
        nft.time_calc,
        reward_per_second,
        percent,
    );
    lemma_sample_kept_settle(term, now, nft.time_calc);
    lemma_sample_kept_settle(term, now, now);
    lemma_wf_ascending(after.samples);
    lemma_accruals_add_up(
        after.samples,
        after.samples.len() as int,
        nft.start_time,
        nft.time_calc,
        end,
        reward_per_second,
        percent,
    );
    lemma_accrued_nonnegative(
        after.samples,
        after.samples.len() as int,
        nft.time_calc,
        end,
        reward_per_second,
        percent,
    );
}

/// The events of steps are in the order of their times, as the steps are.
pub proof fn lemma_events_of(
    steps: Seq<Step>,
    time: u64,
    percent: u128,
    campaign_end: u64,
    reward_per_second: u128,
)
    requires
        steps_wf(steps, time, percent),
    ensures
        ({
            let events = events_of(steps, campaign_end, reward_per_second);
            &&& events.len() == steps.len()
            &&& forall|i: int|
                0 <= i < steps.len() ==> event_time(#[trigger] events[i]) == step_time(steps[i])
            &&& events_wf(events, time)
        }),
    decreases steps.len(),
{
    let events = events_of(steps, campaign_end, reward_per_second);
    if steps.len() > 0 {
        let front = steps.drop_last();
        assert(steps_wf(front, time, percent)) by {
            assert forall|i: int| 0 <= i < front.len() implies front[i] == steps[i] by {}
        }
        lemma_events_of(front, time, percent, campaign_end, reward_per_second);
        let earlier = events_of(front, campaign_end, reward_per_second);
        assert(steps.last() == steps[steps.len() - 1]);
        assert forall|i: int| 0 <= i < steps.len() implies event_time(#[trigger] events[i])
            == step_time(steps[i]) by {
            if i < front.len() {
                assert(events[i] == earlier[i]);
                assert(front[i] == steps[i]);
            }
        }
        assert forall|i: int| 0 <= i < events.len() implies (#[trigger] events[i]
            matches TermEvent::Stake { at, end } ==> at < end) by {
            if i < front.len() {
                assert(events[i] == earlier[i]);
            }
        }
    }
}

/// After steps in the order of their times, all is well with the book.
#[verifier::rlimit(50)]
pub proof fn lemma_book_ok(
    steps: Seq<Step>,
    time: u64,
    percent: u128,
    campaign_end: u64,
    reward_per_second: u128,
)
    requires
        steps_wf(steps, time, percent),
    ensures
        book_ok(
            book_after(steps, campaign_end, reward_per_second),
            events_of(steps, campaign_end, reward_per_second),
            time,
            reward_per_second,
            percent,
        ),
    decreases steps.len(),
{
    let book = book_after(steps, campaign_end, reward_per_second);
    let events = events_of(steps, campaign_end, reward_per_second);
    if steps.len() > 0 {
        let front = steps.drop_last();
        let step = steps.last();
        let now = step_time(step);
        assert(step == steps[steps.len() - 1]);
        assert(steps_wf(front, now, percent)) by {
            assert forall|i: int| 0 <= i < front.len() implies front[i] == steps[i] by {}
        }
        lemma_book_ok(front, now, percent, campaign_end, reward_per_second);
        let before = book_after(front, campaign_end, reward_per_second);
        let earlier = events_of(front, campaign_end, reward_per_second);
        let bound = settled_time(earlier);
        assert(events.drop_last() =~= earlier);
        match step {
            Step::Stake { nft } => {
                lemma_accrual_stable_stake(
                    before.term,
                    bound,
                    nft.end_time,
                    now,
                    0,
                    0,
                    reward_per_second,
                    percent,
                );
                assert forall|i: int| 0 <= i < book.holdings.len() implies holding_ok(
                    #[trigger] book.holdings[i],
                    book.term,
                    now,
                    time,
                    reward_per_second,
                    percent,
                ) by {
                    if i < before.holdings.len() {
                        assert(book.holdings[i] == before.holdings[i]);
                        lemma_bystander_stake(
                            before.holdings[i],
                            before.term,
                            bound,
                            nft.end_time,
                            now,
                            reward_per_second,
                            percent,
                        );
                    } else {
                        lemma_sample_kept_stake(before.term, nft.end_time, now, now);
                        lemma_accrued_nonnegative(
                            book.term.samples,
                            book.term.samples.len() as int,
                            now,
                            now,
                            reward_per_second,
                            percent,
                        );
                    }
                }
            },
            _ => {
                let who = match step {
                    Step::Integrate { who, .. } => who,
                    Step::Claim { who, .. } => who,
                    Step::Unstake { who, .. } => who,
                    _ => 0,
                };
                let named = 0 <= who < before.holdings.len();
                if named && !before.holdings[who].nft.is_end_reward {
                    lemma_integrated(
                        before.holdings[who],
                        before.term,
                        bound,
                        now,
                        campaign_end,
                        reward_per_second,
                        percent,
                    );
                }
                if integrates(before, step) {
                    let after = settle_at(before.term, now);
                    lemma_accrual_stable_settle(
                        after,
                        now,
                        now,
                        before.holdings[who].nft.start_time,
                        book.holdings[who].nft.time_calc,
                        reward_per_second,
                        percent,
                    );
                    assert forall|i: int| 0 <= i < book.holdings.len() implies holding_ok(
                        #[trigger] book.holdings[i],
                        book.term,
                        now,
                        time,
                        reward_per_second,
                        percent,
                    ) by {
                        if i != who {
                            assert(book.holdings[i] == before.holdings[i]);
                            lemma_bystander_settle(
                                before.holdings[i],
                                before.term,
                                bound,
                                now,
                                reward_per_second,
                                percent,
                            );
                        }
                    }
                } else {
                    assert(book.term == before.term);
                    assert forall|i: int| 0 <= i < book.holdings.len() implies holding_ok(
                        #[trigger] book.holdings[i],
                        book.term,
                        bound,
                        time,
                        reward_per_second,
                        percent,
                    ) by {
                        if named && i == who {
                            assert(holding_ok(
                                before.holdings[who],
                                before.term,
                                bound,
                                now,
                                reward_per_second,
                                percent,
                            ));
                        } else {
                            assert(book.holdings[i] == before.holdings[i]);
                        }
                    }
                }
            },
        }
    }
}

/// The time over which a position accrues up to `time`.
pub open spec fn window_of(held: Holding, time: u64) -> Window {
    Window {
        start: held.nft.start_time,
        end: if held.nft.end_time < time {
            held.nft.end_time
        } else {
            time
        },
    }
}

/// The positions of a book are, in their order, the positions that the
/// steps staked.
proof fn lemma_stays_of_steps(
    steps: Seq<Step>,
    time: u64,
    campaign_end: u64,
    reward_per_second: u128,
)
    ensures
        ({
            let book = book_after(steps, campaign_end, reward_per_second);
            let stays = stays_of(events_of(steps, campaign_end, reward_per_second), time);
            &&& stays.len() == book.holdings.len()
            &&& forall|i: int|
                0 <= i < stays.len() ==> #[trigger] stays[i] == window_of(book.holdings[i], time)
        }),
    decreases steps.len(),
{
    if steps.len() > 0 {
        let front = steps.drop_last();
        lemma_stays_of_steps(front, time, campaign_end, reward_per_second);
        let before = book_after(front, campaign_end, reward_per_second);
        let earlier = events_of(front, campaign_end, reward_per_second);
        let book = book_after(steps, campaign_end, reward_per_second);
        let events = events_of(steps, campaign_end, reward_per_second);
        let stays = stays_of(events, time);
        assert(events.drop_last() =~= earlier);
        assert forall|i: int| 0 <= i < stays.len() implies #[trigger] stays[i] == window_of(
            book.holdings[i],
            time,
        ) by {
            if i < before.holdings.len() {
                assert(stays[i] == stays_of(earlier, time)[i]);
            }
        }
    }
}

/// Positions that have each earned no more than they earn on a curve
/// have together earned no more than they earn on it together.
proof fn lemma_total_earned_bound(
    holdings: Seq<Holding>,
    windows: Seq<Window>,
    samples: Seq<RewardRate>,
    reward_per_second: u128,
    percent: u128,
)
    requires
        windows.len() == holdings.len(),
        forall|i: int|
            0 <= i < holdings.len() ==> earned(#[trigger] holdings[i]) <= accrued(
                samples,
                windows[i].start,
                windows[i].end,
                reward_per_second,
                percent,
            ),
    ensures
        total_earned(holdings) <= total_accrued(samples, windows, reward_per_second, percent),
    decreases holdings.len(),
{
    if holdings.len() > 0 {
        let front = holdings.drop_last();
        let fewer = windows.drop_last();
        assert forall|i: int| 0 <= i < front.len() implies earned(#[trigger] front[i]) <= accrued(
            samples,
            fewer[i].start,
            fewer[i].end,
            reward_per_second,
            percent,
        ) by {
            assert(front[i] == holdings[i]);
            assert(fewer[i] == windows[i]);
        }
        lemma_total_earned_bound(front, fewer, samples, reward_per_second, percent);
        assert(holdings.last() == holdings[holdings.len() - 1]);
        assert(windows.last() == windows[windows.len() - 1]);
    }
}

/// What the positions of a term have earned in all is no more than what
/// they earn on the term's curve, each in one integration from its start.
///
/// After any stakings, integrations, payments and unstakings in the order
/// of their times, what was paid out of the positions and what is pending
/// in them is together no more than what the staked positions earn on the
/// curve of the term, settled at a time not before the last step, each from
/// its start to the end of its lock or to that time.
#[verifier::rlimit(50)]
pub proof fn lemma_earned_within_accrued(
    steps: Seq<Step>,
    time: u64,
    percent: u128,
    campaign_end: u64,
    reward_per_second: u128,
)
    requires
        steps_wf(steps, time, percent),
    ensures
        ({
            let book = book_after(steps, campaign_end, reward_per_second);
            let events = events_of(steps, campaign_end, reward_per_second);
            &&& book.term == term_after(events)
            &&& events_wf(events, time)
            &&& events.len() == steps.len()
            &&& total_earned(book.holdings) <= total_accrued(
                settle_at(book.term, time).samples,
                stays_of(events, time),
                reward_per_second,
                percent,
            )
        }),
{
    let book = book_after(steps, campaign_end, reward_per_second);
    let events = events_of(steps, campaign_end, reward_per_second);
    let bound = settled_time(events);
    let samples = settle_at(book.term, time).samples;
    let stays = stays_of(events, time);
    lemma_book_ok(steps, time, percent, campaign_end, reward_per_second);
    lemma_events_of(steps, time, percent, campaign_end, reward_per_second);
    lemma_stays_of_steps(steps, time, campaign_end, reward_per_second);
    lemma_accrual_stable_settle(book.term, bound, time, 0, 0, reward_per_second, percent);
    lemma_wf_ascending(samples);
    assert forall|i: int| 0 <= i < book.holdings.len() implies earned(
        #[trigger] book.holdings[i],
    ) <= accrued(samples, stays[i].start, stays[i].end, reward_per_second, percent) by {
        let held = book.holdings[i];
        let nft = held.nft;
        assert(holding_ok(held, book.term, bound, time, reward_per_second, percent));
        assert(stays[i] == window_of(held, time));
        if nft.is_end_reward {
            lemma_accrual_same_settled(
                book.term,
                later_of(held.seen, bound),
                time,
                nft.start_time,
                nft.time_calc,
                reward_per_second,
                percent,
            );
        } else {
            lemma_accrual_stable_settle(
                book.term,
                bound,
                time,
                nft.start_time,
                nft.time_calc,
                reward_per_second,
                percent,
            );
        }
        lemma_accrued_grows_with_end(
            samples,
            nft.start_time,
            nft.time_calc,
            stays[i].end,
            reward_per_second,
            percent,
        );
    }
    lemma_total_earned_bound(book.holdings, stays, samples, reward_per_second, percent);
}

/// The positions of a term never earn more than the term's share of the
/// emission.
///
/// After any stakings, integrations, payments and unstakings in the order
/// of their times, what was paid out of the positions of a term and what is
/// pending in them is together no more than what the term owes for its
/// curve, settled at a time not before the last step, and that is no more
/// than the term's share of what the campaign emits over the time that the
/// curve spans.
pub proof fn lemma_earned_within_share(
    steps: Seq<Step>,
    time: u64,
    percent: u128,
    campaign_end: u64,
    reward_per_second: u128,
)
    requires
        steps_wf(steps, time, percent),
        steps.len() < u64::MAX,
    ensures
        ({
            let book = book_after(steps, campaign_end, reward_per_second);
            let samples = settle_at(book.term, time).samples;
            &&& samples.len() > 0
            &&& samples[0].timestamp <= time
            &&& total_earned(book.holdings) <= curve_liability(
                samples,
                reward_per_second,
                percent,
            )
            &&& curve_liability(samples, reward_per_second, percent) <= ((time
                - samples[0].timestamp) * reward_per_second * percent) / 100
        }),
{
    lemma_earned_within_accrued(steps, time, percent, campaign_end, reward_per_second);
    lemma_term_conservation(
        events_of(steps, campaign_end, reward_per_second),
        time,
        reward_per_second,
        percent,
    );
}

} // verus!
