//! The course of a term with compactions: what its positions have earned in
//! all is what they would have earned had the curve never been cut.

use vstd::prelude::*;
use crate::campaign::accrual::{accrual_end, integrate, settle_at};
use crate::campaign::contract::last_sample;
use crate::campaign::curve::Term;
use crate::campaign::laws::active_count::{settled_time, TermEvent};
use crate::campaign::laws::compaction::{
    cut_ok, lemma_accrued_cut, lemma_settle_at_cut, lemma_stake_cut, same_first, whole,
};
use crate::campaign::laws::curve_counts::{lemma_events_count, reaches};
use crate::campaign::laws::history::{
    after_step, Book, book_after, book_ok, events_of, holding_ok, integrates, lemma_book_ok,
    lemma_events_of, Step, step_time, steps_wf,
};
use crate::campaign::laws::stability::settled_by;
use crate::campaign::state::{NftInfo, RewardRate};

verus! {

/// What happens to a term: a step of one of its positions, or the
/// compaction of its curve.
pub enum Move {
    /// A position is staked, integrated, paid or taken out.
    Do { step: Step },
    /// All positions of the term are integrated at `at`, one after the
    /// other, and the curve is cut down to its last sample.
    Compact { at: u64 },
}

/// The time of a move.
pub open spec fn move_time(m: Move) -> u64 {
    match m {
        Move::Do { step } => step_time(step),
        Move::Compact { at } => at,
    }
}

/// The integrations of the first `count` positions at `at`, in their order.
pub open spec fn integrations(count: nat, at: u64) -> Seq<Step> {
    Seq::new(count, |who: int| Step::Integrate { who, at })
}

/// The book after `steps`, from `book`.
pub open spec fn apply_steps(
    book: Book,
    steps: Seq<Step>,
    campaign_end: u64,
    reward_per_second: u128,
) -> Book
    decreases steps.len(),
{
    if steps.len() == 0 {
        book
    } else {
        after_step(
            apply_steps(book, steps.drop_last(), campaign_end, reward_per_second),
            steps.last(),
            campaign_end,
            reward_per_second,
        )
    }
}

/// The book with its curve cut down to the last sample.
pub open spec fn cut_down(book: Book) -> Book {
    Book { term: Term { samples: last_sample(book.term.samples), ..book.term }, ..book }
}

/// The book after a move.
pub open spec fn after_move(
    book: Book,
    m: Move,
    campaign_end: u64,
    reward_per_second: u128,
) -> Book {
    match m {
        Move::Do { step } => after_step(book, step, campaign_end, reward_per_second),
        Move::Compact { at } => cut_down(
            apply_steps(
                book,
                integrations(book.holdings.len(), at),
                campaign_end,
                reward_per_second,
            ),
        ),
    }
}

/// The book after `moves`, from an empty term.
pub open spec fn ledger_after(moves: Seq<Move>, campaign_end: u64, reward_per_second: u128) -> Book
    decreases moves.len(),
{
    if moves.len() == 0 {
        book_after(Seq::empty(), campaign_end, reward_per_second)
    } else {
        after_move(
            ledger_after(moves.drop_last(), campaign_end, reward_per_second),
            moves.last(),
            campaign_end,
            reward_per_second,
        )
    }
}

/// The steps that `moves` come to where every compaction is taken for the
/// integrations that it makes.
pub open spec fn steps_of(moves: Seq<Move>, campaign_end: u64, reward_per_second: u128) -> Seq<
    Step,
>
    decreases moves.len(),
{
    if moves.len() == 0 {
        Seq::empty()
    } else {
        let steps = steps_of(moves.drop_last(), campaign_end, reward_per_second);
        match moves.last() {
            Move::Do { step } => steps.push(step),
            Move::Compact { at } => steps + integrations(
                ledger_after(
                    moves.drop_last(),
                    campaign_end,
                    reward_per_second,
                ).holdings.len(),
                at,
            ),
        }
    }
}

/// The samples that the compactions of `moves` have cut off, in their
/// order.
pub open spec fn cut_off(moves: Seq<Move>, campaign_end: u64, reward_per_second: u128) -> Seq<
    RewardRate,
>
    decreases moves.len(),
{
    if moves.len() == 0 {
        Seq::empty()
    } else {
        let older = cut_off(moves.drop_last(), campaign_end, reward_per_second);
        match moves.last() {
            Move::Do { .. } => older,
            Move::Compact { at } => {
                let before = ledger_after(moves.drop_last(), campaign_end, reward_per_second);
                let samples = apply_steps(
                    before,
                    integrations(before.holdings.len(), at),
                    campaign_end,
                    reward_per_second,
                ).term.samples;
                older + cut_by(samples)
            },
        }
    }
}

/// The moves are in the order of their times, none later than `time`, and
/// every position that joins is new: open, without pending reward, accrued
/// up to its start, locked for some time, and with the term's share.
pub open spec fn moves_wf(moves: Seq<Move>, time: u64, percent: u128) -> bool {
    &&& forall|i: int, j: int|
        0 <= i < j < moves.len() ==> move_time(moves[i]) <= move_time(moves[j])
    &&& forall|i: int| 0 <= i < moves.len() ==> move_time(#[trigger] moves[i]) <= time
    &&& forall|i: int|
        0 <= i < moves.len() ==> (#[trigger] moves[i] matches Move::Do { step }
            ==> steps_wf(seq![step], step_time(step), percent))
}

/// The book `actual`, of whose curve `older` was cut off, follows the book
/// `full` with the whole curve: they have the same positions and the same
/// term but for the cut, and every open position is accrued up to a time
/// behind the cut.
pub open spec fn follows(actual: Book, full: Book, older: Seq<RewardRate>, bound: u64) -> bool {
    &&& full.holdings == actual.holdings
    &&& full.term == whole(older, actual.term)
    &&& cut_ok(older, actual.term.samples, bound)
    &&& forall|i: int|
        0 <= i < actual.holdings.len() ==> (older.len() > 0 && !(
        #[trigger] actual.holdings[i]).nft.is_end_reward ==> actual.term.samples[0].timestamp
            <= actual.holdings[i].nft.time_calc)
}

/// A curve that has samples still has samples, and still starts at the
/// same time.
pub open spec fn first_kept(before: Seq<RewardRate>, after: Seq<RewardRate>) -> bool {
    before.len() > 0 ==> after.len() > 0 && after[0].timestamp == before[0].timestamp
}

/// The settlement time after a step.
spec fn bound_after(full: Book, bound: u64, step: Step) -> u64 {
    if step is Stake || integrates(full, step) {
        step_time(step)
    } else {
        bound
    }
}

/// An integration behind the cut gives what it gives on the whole curve.
proof fn lemma_integrate_follows(
    nft: NftInfo,
    actual: Term,
    older: Seq<RewardRate>,
    bound: u64,
    now: u64,
    campaign_end: u64,
    reward_per_second: u128,
)
    requires
        cut_ok(older, actual.samples, bound),
        settled_by(whole(older, actual), bound),
        bound <= now,
        !nft.is_end_reward,
        nft.time_calc <= bound,
        nft.time_calc <= nft.end_time,
        older.len() > 0 ==> actual.samples[0].timestamp <= nft.time_calc,
    ensures
        ({
            let behind = integrate(nft, actual, now, campaign_end, reward_per_second);
            let on_whole = integrate(
                nft,
                whole(older, actual),
                now,
                campaign_end,
                reward_per_second,
            );
            &&& on_whole.0 == behind.0
            &&& on_whole.1 == whole(older, behind.1)
            &&& cut_ok(older, behind.1.samples, bound)
            &&& same_first(actual.samples, behind.1.samples, bound)
            &&& behind.0.time_calc >= nft.time_calc
        }),
{
    lemma_settle_at_cut(older, actual, bound, now);
    let after = settle_at(actual, now);
    lemma_accrued_cut(
        older,
        after.samples,
        bound,
        nft.time_calc,
        accrual_end(nft, now),
        reward_per_second,
        nft.lockup_term.percent,
    );
}

/// A step keeps the book behind the cut in step with the book with the
/// whole curve.
#[verifier::rlimit(50)]
proof fn lemma_step_follows(
    actual: Book,
    full: Book,
    older: Seq<RewardRate>,
    events: Seq<TermEvent>,
    step: Step,
    percent: u128,
    campaign_end: u64,
    reward_per_second: u128,
)
    requires
        follows(actual, full, older, settled_time(events)),
        book_ok(full, events, step_time(step), reward_per_second, percent),
        reaches(full.term.samples, settled_time(events)),
        steps_wf(seq![step], step_time(step), percent),
    ensures
        follows(
            after_step(actual, step, campaign_end, reward_per_second),
            after_step(full, step, campaign_end, reward_per_second),
            older,
            bound_after(full, settled_time(events), step),
        ),
        settled_time(events) <= bound_after(full, settled_time(events), step),
        first_kept(
            actual.term.samples,
            after_step(actual, step, campaign_end, reward_per_second).term.samples,
        ),
{
    let bound = settled_time(events);
    if actual.term.samples.len() > 0 {
        assert(full.term.samples[older.len() as int] == actual.term.samples[0]);
    }
    let now = step_time(step);
    let after_actual = after_step(actual, step, campaign_end, reward_per_second);
    let after_full = after_step(full, step, campaign_end, reward_per_second);
    assert(seq![step][0] == step);
    match step {
        Step::Stake { nft } => {
            lemma_stake_cut(older, actual.term, bound, nft.end_time, now);
            assert forall|i: int| 0 <= i < after_actual.holdings.len() implies (older.len() > 0 && !(
            #[trigger] after_actual.holdings[i]).nft.is_end_reward
                ==> after_actual.term.samples[0].timestamp
                <= after_actual.holdings[i].nft.time_calc) by {
                if i < actual.holdings.len() {
                    assert(after_actual.holdings[i] == actual.holdings[i]);
                }
            }
        },
        _ => {
            let who = match step {
                Step::Integrate { who, .. } => who,
                Step::Claim { who, .. } => who,
                Step::Unstake { who, .. } => who,
                _ => 0,
            };
            if 0 <= who < actual.holdings.len() && !actual.holdings[who].nft.is_end_reward {
                let held = actual.holdings[who];
                assert(holding_ok(
                    full.holdings[who],
                    full.term,
                    bound,
                    now,
                    reward_per_second,
                    percent,
                ));
                lemma_integrate_follows(
                    held.nft,
                    actual.term,
                    older,
                    bound,
                    now,
                    campaign_end,
                    reward_per_second,
                );
                assert forall|i: int| 0 <= i < after_actual.holdings.len() implies (older.len() > 0
                    && !(#[trigger] after_actual.holdings[i]).nft.is_end_reward
                    ==> after_actual.term.samples[0].timestamp
                    <= after_actual.holdings[i].nft.time_calc) by {
                    if i != who {
                        assert(after_actual.holdings[i] == actual.holdings[i]);
                    }
                }
            }
        },
    }
}

/// A front part of steps in the order of their times is in the order of
/// its times.
proof fn lemma_steps_wf_front(steps: Seq<Step>, n: int, time: u64, percent: u128)
    requires
        steps_wf(steps, time, percent),
        0 <= n < steps.len(),
    ensures
        steps_wf(steps.take(n), step_time(steps[n]), percent),
        steps_wf(seq![steps[n]], step_time(steps[n]), percent),
{
    let front = steps.take(n);
    assert forall|i: int| 0 <= i < front.len() implies front[i] == steps[i] by {}
    assert(seq![steps[n]][0] == steps[n]);
}

/// The book after steps is the book after the first of them, taken
/// through the others.
proof fn lemma_apply_steps(
    front: Seq<Step>,
    extra: Seq<Step>,
    campaign_end: u64,
    reward_per_second: u128,
)
    ensures
        book_after(front + extra, campaign_end, reward_per_second) == apply_steps(
            book_after(front, campaign_end, reward_per_second),
            extra,
            campaign_end,
            reward_per_second,
        ),
    decreases extra.len(),
{
    if extra.len() == 0 {
        assert(front + extra =~= front);
    } else {
        lemma_apply_steps(front, extra.drop_last(), campaign_end, reward_per_second);
        assert((front + extra).drop_last() =~= front + extra.drop_last());
        assert((front + extra).last() == extra.last());
    }
}

/// Steps keep the book behind the cut in step with the book with the
/// whole curve.
#[verifier::rlimit(50)]
proof fn lemma_steps_follow(
    actual: Book,
    front: Seq<Step>,
    extra: Seq<Step>,
    older: Seq<RewardRate>,
    time: u64,
    percent: u128,
    campaign_end: u64,
    reward_per_second: u128,
)
    requires
        steps_wf(front + extra, time, percent),
        front.len() + extra.len() <= u64::MAX,
        follows(
            actual,
            book_after(front, campaign_end, reward_per_second),
            older,
            settled_time(events_of(front, campaign_end, reward_per_second)),
        ),
    ensures
        follows(
            apply_steps(actual, extra, campaign_end, reward_per_second),
            book_after(front + extra, campaign_end, reward_per_second),
            older,
            settled_time(events_of(front + extra, campaign_end, reward_per_second)),
        ),
        first_kept(
            actual.term.samples,
            apply_steps(actual, extra, campaign_end, reward_per_second).term.samples,
        ),
    decreases extra.len(),
{
    let all = front + extra;
    if extra.len() == 0 {
        assert(all =~= front);
    } else {
        let fewer = front + extra.drop_last();
        let step = extra.last();
        let now = step_time(step);
        assert(all.drop_last() =~= fewer);
        assert(all.take(all.len() - 1) =~= fewer);
        assert(all[all.len() - 1] == step);
        lemma_steps_wf_front(all, all.len() - 1, time, percent);
        lemma_steps_follow(
            actual,
            front,
            extra.drop_last(),
            older,
            now,
            percent,
            campaign_end,
            reward_per_second,
        );
        lemma_book_ok(fewer, now, percent, campaign_end, reward_per_second);
        lemma_events_of(fewer, now, percent, campaign_end, reward_per_second);
        lemma_events_count(events_of(fewer, campaign_end, reward_per_second), now);
        lemma_step_follows(
            apply_steps(actual, extra.drop_last(), campaign_end, reward_per_second),
            book_after(fewer, campaign_end, reward_per_second),
            older,
            events_of(fewer, campaign_end, reward_per_second),
            step,
            percent,
            campaign_end,
            reward_per_second,
        );
        assert(events_of(all, campaign_end, reward_per_second).drop_last() =~= events_of(
            fewer,
            campaign_end,
            reward_per_second,
        ));
    }
}

/// Every one of the first `upto` positions of `book` is closed or accrued
/// up to `at`.
spec fn caught_up(book: Book, upto: int, at: u64) -> bool {
    forall|i: int|
        0 <= i < upto && i < book.holdings.len() ==> (#[trigger] book.holdings[i]).nft.is_end_reward
            || book.holdings[i].nft.time_calc == at
}

/// Integrations at a time not before the steps so far are steps in the
/// order of their times.
proof fn lemma_integrations_wf(front: Seq<Step>, count: nat, at: u64, percent: u128)
    requires
        steps_wf(front, at, percent),
    ensures
        steps_wf(front + integrations(count, at), at, percent),
{
    let all = front + integrations(count, at);
    assert forall|i: int| 0 <= i < all.len() implies step_time(#[trigger] all[i]) <= at && (all[i]
        matches Step::Stake { nft } ==> {
        &&& !nft.is_end_reward
        &&& nft.pending_reward == 0
        &&& nft.time_calc == nft.start_time
        &&& nft.start_time < nft.end_time
        &&& nft.lockup_term.percent == percent
    }) by {
        if i < front.len() {
            assert(all[i] == front[i]);
        } else {
            assert(all[i] == integrations(count, at)[i - front.len()]);
        }
    }
    assert forall|i: int, j: int| 0 <= i < j < all.len() implies step_time(all[i]) <= step_time(
        all[j],
    ) by {
        if j < front.len() {
            assert(all[i] == front[i] && all[j] == front[j]);
        } else {
            assert(all[j] == integrations(count, at)[j - front.len()]);
            assert(step_time(all[i]) <= at);
        }
    }
}

/// After the integration of the first `count` positions at a time not
/// before the steps so far, each of them is closed or accrued up to that
/// time.
#[verifier::rlimit(50)]
proof fn lemma_integrations_catch_up(
    front: Seq<Step>,
    count: nat,
    at: u64,
    percent: u128,
    campaign_end: u64,
    reward_per_second: u128,
)
    requires
        steps_wf(front, at, percent),
    ensures
        ({
            let before = book_after(front, campaign_end, reward_per_second);
            let after = book_after(
                front + integrations(count, at),
                campaign_end,
                reward_per_second,
            );
            &&& after.holdings.len() == before.holdings.len()
            &&& caught_up(after, count as int, at)
        }),
    decreases count,
{
    if count == 0 {
        assert(front + integrations(count, at) =~= front);
    } else {
        let fewer = front + integrations((count - 1) as nat, at);
        let all = front + integrations(count, at);
        let who = count - 1;
        let step = Step::Integrate { who, at };
        assert(all =~= fewer.push(step));
        assert(all.drop_last() =~= fewer);
        lemma_integrations_catch_up(
            front,
            (count - 1) as nat,
            at,
            percent,
            campaign_end,
            reward_per_second,
        );
        lemma_integrations_wf(front, (count - 1) as nat, at, percent);
        lemma_book_ok(fewer, at, percent, campaign_end, reward_per_second);
        let before = book_after(fewer, campaign_end, reward_per_second);
        let after = book_after(all, campaign_end, reward_per_second);
        assert forall|i: int| 0 <= i < count && i < after.holdings.len() implies (
        #[trigger] after.holdings[i]).nft.is_end_reward || after.holdings[i].nft.time_calc
            == at by {
            if i < who {
                assert(after.holdings[i] == before.holdings[i]);
            } else {
                assert(holding_ok(
                    before.holdings[who],
                    before.term,
                    settled_time(events_of(fewer, campaign_end, reward_per_second)),
                    at,
                    reward_per_second,
                    percent,
                ));
            }
        }
    }
}

/// One step more keeps the book behind the cut in step with the book with
/// the whole curve.
#[verifier::rlimit(50)]
pub proof fn lemma_do_follows(
    actual: Book,
    front: Seq<Step>,
    step: Step,
    older: Seq<RewardRate>,
    percent: u128,
    campaign_end: u64,
    reward_per_second: u128,
)
    requires
        steps_wf(front, step_time(step), percent),
        steps_wf(seq![step], step_time(step), percent),
        front.len() < u64::MAX,
        follows(
            actual,
            book_after(front, campaign_end, reward_per_second),
            older,
            settled_time(events_of(front, campaign_end, reward_per_second)),
        ),
    ensures
        steps_wf(front.push(step), step_time(step), percent),
        follows(
            after_step(actual, step, campaign_end, reward_per_second),
            book_after(front.push(step), campaign_end, reward_per_second),
            older,
            settled_time(events_of(front.push(step), campaign_end, reward_per_second)),
        ),
        first_kept(
            actual.term.samples,
            after_step(actual, step, campaign_end, reward_per_second).term.samples,
        ),
{
    let now = step_time(step);
    let all = front.push(step);
    assert(seq![step][0] == step);
    assert(all.drop_last() =~= front);
    assert forall|i: int| 0 <= i < all.len() implies step_time(#[trigger] all[i]) <= now && (all[i]
        matches Step::Stake { nft } ==> {
        &&& !nft.is_end_reward
        &&& nft.pending_reward == 0
        &&& nft.time_calc == nft.start_time
        &&& nft.start_time < nft.end_time
        &&& nft.lockup_term.percent == percent
    }) by {
        if i < front.len() {
            assert(all[i] == front[i]);
        }
    }
    assert forall|i: int, j: int| 0 <= i < j < all.len() implies step_time(all[i]) <= step_time(
        all[j],
    ) by {
        if j < front.len() {
            assert(all[i] == front[i] && all[j] == front[j]);
        } else {
            assert(step_time(all[i]) <= now);
        }
    }
    lemma_book_ok(front, now, percent, campaign_end, reward_per_second);
    lemma_events_of(front, now, percent, campaign_end, reward_per_second);
    lemma_events_count(events_of(front, campaign_end, reward_per_second), now);
    lemma_step_follows(
        actual,
        book_after(front, campaign_end, reward_per_second),
        older,
        events_of(front, campaign_end, reward_per_second),
        step,
        percent,
        campaign_end,
        reward_per_second,
    );
    assert(events_of(all, campaign_end, reward_per_second).drop_last() =~= events_of(
        front,
        campaign_end,
        reward_per_second,
    ));
}

/// The samples that a compaction cuts off a curve.
pub open spec fn cut_by(samples: Seq<RewardRate>) -> Seq<RewardRate> {
    if samples.len() == 0 {
        samples
    } else {
        samples.drop_last()
    }
}

/// A compaction keeps the book behind the cut in step with the book with
/// the whole curve.
#[verifier::rlimit(50)]
pub proof fn lemma_compact_follows(
    actual: Book,
    front: Seq<Step>,
    older: Seq<RewardRate>,
    at: u64,
    percent: u128,
    campaign_end: u64,
    reward_per_second: u128,
)
    requires
        steps_wf(front, at, percent),
        front.len() + actual.holdings.len() <= u64::MAX,
        follows(
            actual,
            book_after(front, campaign_end, reward_per_second),
            older,
            settled_time(events_of(front, campaign_end, reward_per_second)),
        ),
    ensures
        ({
            let extra = integrations(actual.holdings.len(), at);
            let integrated = apply_steps(actual, extra, campaign_end, reward_per_second);
            &&& steps_wf(front + extra, at, percent)
            &&& follows(
                cut_down(integrated),
                book_after(front + extra, campaign_end, reward_per_second),
                older + cut_by(integrated.term.samples),
                settled_time(events_of(front + extra, campaign_end, reward_per_second)),
            )
            &&& first_kept(actual.term.samples, integrated.term.samples)
            &&& cut_ok(
                older,
                integrated.term.samples,
                settled_time(events_of(front + extra, campaign_end, reward_per_second)),
            )
        }),
{
    let count = actual.holdings.len();
    let extra = integrations(count, at);
    let all = front + extra;
    lemma_integrations_wf(front, count, at, percent);
    lemma_steps_follow(actual, front, extra, older, at, percent, campaign_end, reward_per_second);
    lemma_integrations_catch_up(front, count, at, percent, campaign_end, reward_per_second);
    lemma_book_ok(all, at, percent, campaign_end, reward_per_second);
    lemma_events_of(all, at, percent, campaign_end, reward_per_second);
    let events = events_of(all, campaign_end, reward_per_second);
    lemma_events_count(events, at);
    let bound = settled_time(events);
    let full = book_after(all, campaign_end, reward_per_second);
    let integrated = apply_steps(actual, extra, campaign_end, reward_per_second);
    let samples = integrated.term.samples;
    let cut = cut_down(integrated);
    let cut_older = older + cut_by(samples);
    assert(cut_older + cut.term.samples =~= older + samples);
    if samples.len() > 0 {
        let whole_curve = older + samples;
        assert(whole_curve[whole_curve.len() - 1] == samples[samples.len() - 1]);
        assert(cut.term.samples[0] == samples[samples.len() - 1]);
        assert(whole_curve[whole_curve.len() - 1].timestamp <= bound);
        assert(bound <= at);
        assert forall|i: int| 0 <= i < cut.holdings.len() implies (cut_older.len() > 0 && !(
        #[trigger] cut.holdings[i]).nft.is_end_reward ==> cut.term.samples[0].timestamp
            <= cut.holdings[i].nft.time_calc) by {
            assert(full.holdings[i] == cut.holdings[i]);
            assert(full.holdings[i].nft.is_end_reward || full.holdings[i].nft.time_calc == at);
        }
    }
}

/// The steps of moves in the order of their times are in the order of
/// their times, and the book behind the cuts of the compactions follows the
/// book with the whole curve.
pub proof fn lemma_ledger_follows(
    moves: Seq<Move>,
    time: u64,
    percent: u128,
    campaign_end: u64,
    reward_per_second: u128,
)
    requires
        moves_wf(moves, time, percent),
        steps_of(moves, campaign_end, reward_per_second).len() <= u64::MAX,
    ensures
        steps_wf(steps_of(moves, campaign_end, reward_per_second), time, percent),
        follows(
            ledger_after(moves, campaign_end, reward_per_second),
            book_after(
                steps_of(moves, campaign_end, reward_per_second),
                campaign_end,
                reward_per_second,
            ),
            cut_off(moves, campaign_end, reward_per_second),
            settled_time(
                events_of(
                    steps_of(moves, campaign_end, reward_per_second),
                    campaign_end,
                    reward_per_second,
                ),
            ),
        ),
    decreases moves.len(),
{
    if moves.len() == 0 {
        let empty = book_after(Seq::empty(), campaign_end, reward_per_second);
        assert(Seq::<RewardRate>::empty() + empty.term.samples =~= empty.term.samples);
    } else {
        let fewer = moves.drop_last();
        let last = moves.last();
        let now = move_time(last);
        assert(last == moves[moves.len() - 1]);
        assert(moves_wf(fewer, now, percent)) by {
            assert forall|i: int| 0 <= i < fewer.len() implies fewer[i] == moves[i] by {}
        }
        let front = steps_of(fewer, campaign_end, reward_per_second);
        lemma_ledger_follows(fewer, now, percent, campaign_end, reward_per_second);
        let actual = ledger_after(fewer, campaign_end, reward_per_second);
        let older = cut_off(fewer, campaign_end, reward_per_second);
        match last {
            Move::Do { step } => {
                lemma_do_follows(
                    actual,
                    front,
                    step,
                    older,
                    percent,
                    campaign_end,
                    reward_per_second,
                );
            },
            Move::Compact { at } => {
                lemma_compact_follows(
                    actual,
                    front,
                    older,
                    at,
                    percent,
                    campaign_end,
                    reward_per_second,
                );
            },
        }
    }
}

/// No move is earlier than `start`.
pub open spec fn moves_from(moves: Seq<Move>, start: u64) -> bool {
    forall|i: int| 0 <= i < moves.len() ==> move_time(#[trigger] moves[i]) >= start
}

/// The steps of moves of which none is earlier than `start` are not
/// earlier than `start`.
pub proof fn lemma_steps_of_from(
    moves: Seq<Move>,
    start: u64,
    campaign_end: u64,
    reward_per_second: u128,
)
    requires
        moves_from(moves, start),
    ensures
        forall|i: int|
            0 <= i < steps_of(moves, campaign_end, reward_per_second).len() ==> step_time(
                #[trigger] steps_of(moves, campaign_end, reward_per_second)[i],
            ) >= start,
    decreases moves.len(),
{
    if moves.len() > 0 {
        let fewer = moves.drop_last();
        assert forall|i: int| 0 <= i < fewer.len() implies move_time(#[trigger] fewer[i])
            >= start by {
            assert(fewer[i] == moves[i]);
        }
        lemma_steps_of_from(fewer, start, campaign_end, reward_per_second);
        assert(move_time(moves[moves.len() - 1]) >= start);
        let front = steps_of(fewer, campaign_end, reward_per_second);
        let steps = steps_of(moves, campaign_end, reward_per_second);
        assert forall|i: int| 0 <= i < steps.len() implies step_time(#[trigger] steps[i])
            >= start by {
            if i < front.len() {
                assert(steps[i] == front[i]);
            }
        }
    }
}

/// Compaction changes nothing for the positions: after moves in the order
/// of their times, the positions of the term are what they are after the
/// steps that the moves come to, on a curve that is never cut.
pub proof fn lemma_compaction_changes_nothing(
    moves: Seq<Move>,
    time: u64,
    percent: u128,
    campaign_end: u64,
    reward_per_second: u128,
)
    requires
        moves_wf(moves, time, percent),
        steps_of(moves, campaign_end, reward_per_second).len() <= u64::MAX,
    ensures
        steps_wf(steps_of(moves, campaign_end, reward_per_second), time, percent),
        ledger_after(moves, campaign_end, reward_per_second).holdings == book_after(
            steps_of(moves, campaign_end, reward_per_second),
            campaign_end,
            reward_per_second,
        ).holdings,
{
    lemma_ledger_follows(moves, time, percent, campaign_end, reward_per_second);
}

} // verus!
