//! What a term has on its books as owed covers what its positions have
//! earned: the liability of its curve, and what it owed on the samples that
//! compactions cut off.

use vstd::prelude::*;
use crate::campaign::accrual::{curve_liability, liability_upto, settle_at};
use crate::campaign::laws::active_count::settled_time;
use crate::campaign::laws::compacted::{
    apply_steps, cut_by, cut_down, cut_off, first_kept, integrations, ledger_after,
    lemma_compact_follows, lemma_do_follows, lemma_ledger_follows, Move, move_time, moves_wf,
    steps_of,
};
use crate::campaign::laws::compaction::lemma_settle_at_cut;
use crate::campaign::laws::curve_counts::lemma_events_count;
use crate::campaign::laws::history::{
    book_after, events_of, lemma_book_ok, lemma_earned_within_share, lemma_events_of,
    total_earned,
};
use crate::campaign::state::RewardRate;

verus! {

/// What the term owed on its curve at the compactions of `moves`, summed
/// over the compactions: at each, the liability of the curve as the
/// integrations of the compaction left it.
pub open spec fn compacted_liability(
    moves: Seq<Move>,
    percent: u128,
    campaign_end: u64,
    reward_per_second: u128,
) -> int
    decreases moves.len(),
{
    if moves.len() == 0 {
        0
    } else {
        let earlier = compacted_liability(
            moves.drop_last(),
            percent,
            campaign_end,
            reward_per_second,
        );
        match moves.last() {
            Move::Do { .. } => earlier,
            Move::Compact { at } => {
                let before = ledger_after(moves.drop_last(), campaign_end, reward_per_second);
                earlier + curve_liability(
                    apply_steps(
                        before,
                        integrations(before.holdings.len(), at),
                        campaign_end,
                        reward_per_second,
                    ).term.samples,
                    reward_per_second,
                    percent,
                )
            },
        }
    }
}

/// The samples that were cut off, with the first sample that is left.
pub open spec fn cut_part(older: Seq<RewardRate>, actual: Seq<RewardRate>) -> Seq<RewardRate> {
    if actual.len() > 0 {
        older.push(actual[0])
    } else {
        older
    }
}

/// The liability of the first segments of a curve is the liability of
/// the front part of the curve that holds them.
proof fn lemma_liability_of_front(
    older: Seq<RewardRate>,
    actual: Seq<RewardRate>,
    n: int,
    reward_per_second: u128,
    percent: u128,
)
    requires
        actual.len() > 0,
        0 <= n <= older.len(),
    ensures
        liability_upto(older + actual, n, reward_per_second, percent) == liability_upto(
            older.push(actual[0]),
            n,
            reward_per_second,
            percent,
        ),
    decreases n,
{
    if n > 0 {
        lemma_liability_of_front(older, actual, n - 1, reward_per_second, percent);
        let all = older + actual;
        let part = older.push(actual[0]);
        assert(all[n - 1] == part[n - 1]);
        assert(all[n] == part[n]);
    }
}

/// The liability of the last segments of a curve is the liability of the
/// back part of the curve that holds them.
proof fn lemma_liability_of_back(
    older: Seq<RewardRate>,
    actual: Seq<RewardRate>,
    n: int,
    reward_per_second: u128,
    percent: u128,
)
    requires
        actual.len() > 0,
        0 <= n < actual.len(),
    ensures
        liability_upto(older + actual, older.len() + n, reward_per_second, percent)
            == liability_upto(
            older + actual,
            older.len() as int,
            reward_per_second,
            percent,
        ) + liability_upto(actual, n, reward_per_second, percent),
    decreases n,
{
    if n > 0 {
        lemma_liability_of_back(older, actual, n - 1, reward_per_second, percent);
        let all = older + actual;
        assert(all[older.len() + n - 1] == actual[n - 1]);
        assert(all[older.len() + n] == actual[n]);
    } else {
        assert(liability_upto(actual, 0, reward_per_second, percent) == 0);
    }
}

/// The liability of a curve is the liability of the part that is cut off,
/// up to the first sample that is left, and the liability of what is left.
pub proof fn lemma_liability_cut(
    older: Seq<RewardRate>,
    actual: Seq<RewardRate>,
    reward_per_second: u128,
    percent: u128,
)
    ensures
        curve_liability(older + actual, reward_per_second, percent) == curve_liability(
            cut_part(older, actual),
            reward_per_second,
            percent,
        ) + curve_liability(actual, reward_per_second, percent),
{
    if actual.len() == 0 {
        assert(older + actual =~= older);
        assert(liability_upto(actual, -1, reward_per_second, percent) == 0);
    } else {
        lemma_liability_of_front(older, actual, older.len() as int, reward_per_second, percent);
        lemma_liability_of_back(older, actual, actual.len() - 1, reward_per_second, percent);
    }
}

/// What a term owes for a curve that ends with one sample does not depend
/// on the count of that sample.
proof fn lemma_liability_last(
    older: Seq<RewardRate>,
    first: RewardRate,
    second: RewardRate,
    n: int,
    reward_per_second: u128,
    percent: u128,
)
    requires
        first.timestamp == second.timestamp,
        0 <= n <= older.len(),
    ensures
        liability_upto(older.push(first), n, reward_per_second, percent) == liability_upto(
            older.push(second),
            n,
            reward_per_second,
            percent,
        ),
    decreases n,
{
    if n > 0 {
        lemma_liability_last(older, first, second, n - 1, reward_per_second, percent);
        assert(older.push(first)[n - 1] == older.push(second)[n - 1]);
    }
}

/// What was owed on the part that is cut off stays what it was while the
/// curve that is left starts at the same time.
proof fn lemma_cut_part_kept(
    older: Seq<RewardRate>,
    before: Seq<RewardRate>,
    after: Seq<RewardRate>,
    reward_per_second: u128,
    percent: u128,
)
    requires
        first_kept(before, after),
        older.len() > 0 ==> before.len() > 0,
    ensures
        curve_liability(cut_part(older, before), reward_per_second, percent) == curve_liability(
            cut_part(older, after),
            reward_per_second,
            percent,
        ),
{
    if before.len() > 0 {
        lemma_liability_last(
            older,
            before[0],
            after[0],
            older.len() as int,
            reward_per_second,
            percent,
        );
    } else if after.len() > 0 {
        assert(older =~= Seq::<RewardRate>::empty());
        assert(liability_upto(older.push(after[0]), 0, reward_per_second, percent) == 0);
        assert(liability_upto(older, -1, reward_per_second, percent) == 0);
    }
}

/// What a term owed at its compactions is what it owes for the samples
/// that they cut off, up to the first sample that is left.
#[verifier::rlimit(50)]
proof fn lemma_compacted_liability(
    moves: Seq<Move>,
    time: u64,
    percent: u128,
    campaign_end: u64,
    reward_per_second: u128,
)
    requires
        moves_wf(moves, time, percent),
        steps_of(moves, campaign_end, reward_per_second).len() <= u64::MAX,
    ensures
        compacted_liability(moves, percent, campaign_end, reward_per_second) == curve_liability(
            cut_part(
                cut_off(moves, campaign_end, reward_per_second),
                ledger_after(moves, campaign_end, reward_per_second).term.samples,
            ),
            reward_per_second,
            percent,
        ),
    decreases moves.len(),
{
    if moves.len() == 0 {
        let none = Seq::<RewardRate>::empty();
        assert(liability_upto(none, -1, reward_per_second, percent) == 0);
    } else {
        let fewer = moves.drop_last();
        let last = moves.last();
        let now = move_time(last);
        assert(last == moves[moves.len() - 1]);
        assert(moves_wf(fewer, now, percent)) by {
            assert forall|i: int| 0 <= i < fewer.len() implies fewer[i] == moves[i] by {}
        }
        lemma_compacted_liability(fewer, now, percent, campaign_end, reward_per_second);
        lemma_ledger_follows(fewer, now, percent, campaign_end, reward_per_second);
        let front = steps_of(fewer, campaign_end, reward_per_second);
        let actual = ledger_after(fewer, campaign_end, reward_per_second);
        let older = cut_off(fewer, campaign_end, reward_per_second);
        match last {
            Move::Do { step } => {
                lemma_do_follows(
                    actual,
                    front,
                    step,
                    older,
                    percent,
                    campaign_end,
                    reward_per_second,
                );
                lemma_cut_part_kept(
                    older,
                    actual.term.samples,
                    ledger_after(moves, campaign_end, reward_per_second).term.samples,
                    reward_per_second,
                    percent,
                );
            },
            Move::Compact { at } => {
                lemma_compact_follows(
                    actual,
                    front,
                    older,
                    at,
                    percent,
                    campaign_end,
                    reward_per_second,
                );
                let integrated = apply_steps(
                    actual,
                    integrations(actual.holdings.len(), at),
                    campaign_end,
                    reward_per_second,
                );
                let samples = integrated.term.samples;
                lemma_cut_part_kept(
                    older,
                    actual.term.samples,
                    samples,
                    reward_per_second,
                    percent,
                );
                lemma_liability_cut(older, samples, reward_per_second, percent);
                let cut = cut_down(integrated);
                if samples.len() > 0 {
                    assert(cut_part(older + cut_by(samples), cut.term.samples) =~= older
                        + samples);
                } else {
                    assert(older + cut_by(samples) =~= older);
                    assert(older + samples =~= older);
                }
            },
        }
    }
}

/// The books of a term cover what its positions have earned.
///
/// After any stakings, integrations, payments, unstakings and compactions
/// in the order of their times, what was paid out of the positions of a
/// term and what is pending in them is together no more than what the term
/// owed at its compactions and what it owes for its curve, settled at a
/// time not before the last move.
pub proof fn lemma_earned_within_reserve(
    moves: Seq<Move>,
    time: u64,
    percent: u128,
    campaign_end: u64,
    reward_per_second: u128,
)
    requires
        moves_wf(moves, time, percent),
        steps_of(moves, campaign_end, reward_per_second).len() < u64::MAX,
    ensures
        total_earned(ledger_after(moves, campaign_end, reward_per_second).holdings)
            <= compacted_liability(moves, percent, campaign_end, reward_per_second)
            + curve_liability(
            settle_at(ledger_after(moves, campaign_end, reward_per_second).term, time).samples,
            reward_per_second,
            percent,
        ),
{
    let steps = steps_of(moves, campaign_end, reward_per_second);
    let actual = ledger_after(moves, campaign_end, reward_per_second);
    let older = cut_off(moves, campaign_end, reward_per_second);
    let full = book_after(steps, campaign_end, reward_per_second);
    let events = events_of(steps, campaign_end, reward_per_second);
    let bound = settled_time(events);
    lemma_ledger_follows(moves, time, percent, campaign_end, reward_per_second);
    lemma_compacted_liability(moves, time, percent, campaign_end, reward_per_second);
    lemma_earned_within_share(steps, time, percent, campaign_end, reward_per_second);
    lemma_book_ok(steps, time, percent, campaign_end, reward_per_second);
    lemma_events_of(steps, time, percent, campaign_end, reward_per_second);
    lemma_events_count(events, time);
    lemma_settle_at_cut(older, actual.term, bound, time);
    let settled = settle_at(actual.term, time).samples;
    if actual.term.samples.len() > 0 {
        assert(full.term.samples[older.len() as int] == actual.term.samples[0]);
    }
    lemma_cut_part_kept(older, actual.term.samples, settled, reward_per_second, percent);
    lemma_liability_cut(older, settled, reward_per_second, percent);
}

} // verus!
