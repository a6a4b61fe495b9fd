//! No reward is made up: what the positions of a term earn on its curve is
//! covered by what the term owes for the curve, and that by the term's
//! share of the emission.

use vstd::prelude::*;
use vstd::arithmetic::div_mod::lemma_div_is_ordered;
use crate::campaign::accrual::{
    accrued, accrued_upto, curve_liability, lemma_segment_reward_bounds, liability_upto,
    sample_reward, segment_end, segment_reward, settle_at,
};
use crate::campaign::contract::emission;
use crate::campaign::curve::by_timestamp;
use crate::campaign::laws::active_count::{active_at, events_wf, term_after, TermEvent};
use crate::campaign::laws::curve_counts::lemma_curve_counts_active;
use crate::campaign::laws::monotone::lemma_segment_reward_grows;
use crate::campaign::sorting::ascending;
use crate::campaign::state::{LockupTerm, percent_sum, RewardRate};
use crate::math::saturate;

verus! {

/// The time over which a position accrues: from `start` to `end`.
pub struct Window {
    pub start: u64,
    pub end: u64,
}

/// Whether a position is accruing at `time`: it has started and not ended.
pub open spec fn covers(time: u64) -> spec_fn(Window) -> bool {
    |window: Window| window.start <= time < window.end
}

/// How many of the positions `windows` are accruing at `time`.
pub open spec fn accruing_at(windows: Seq<Window>, time: u64) -> nat {
    windows.filter(covers(time)).len()
}

/// What the positions `windows` earn together on the curve `samples`.
pub open spec fn total_accrued(
    samples: Seq<RewardRate>,
    windows: Seq<Window>,
    reward_per_second: u128,
    percent: u128,
) -> int
    decreases windows.len(),
{
    if windows.len() == 0 {
        0
    } else {
        total_accrued(samples, windows.drop_last(), reward_per_second, percent) + accrued(
            samples,
            windows.last().start,
            windows.last().end,
            reward_per_second,
            percent,
        )
    }
}

/// What the positions `windows` earn together on the first `n` samples.
spec fn total_upto(
    samples: Seq<RewardRate>,
    windows: Seq<Window>,
    n: int,
    reward_per_second: u128,
    percent: u128,
) -> int
    decreases windows.len(),
{
    if windows.len() == 0 {
        0
    } else {
        total_upto(samples, windows.drop_last(), n, reward_per_second, percent) + accrued_upto(
            samples,
            n,
            windows.last().start,
            windows.last().end,
            reward_per_second,
            percent,
        )
    }
}

/// What the positions `windows` earn together on the sample `j`.
spec fn column(
    samples: Seq<RewardRate>,
    windows: Seq<Window>,
    j: int,
    reward_per_second: u128,
    percent: u128,
) -> int
    decreases windows.len(),
{
    if windows.len() == 0 {
        0
    } else {
        column(samples, windows.drop_last(), j, reward_per_second, percent) + sample_reward(
            samples,
            j,
            windows.last().start,
            windows.last().end,
            reward_per_second,
            percent,
        )
    }
}

/// What the positions earn on all samples is what they earn together.
proof fn lemma_total_is_sum(
    samples: Seq<RewardRate>,
    windows: Seq<Window>,
    reward_per_second: u128,
    percent: u128,
)
    ensures
        total_upto(samples, windows, samples.len() as int, reward_per_second, percent)
            == total_accrued(samples, windows, reward_per_second, percent),
    decreases windows.len(),
{
    if windows.len() > 0 {
        lemma_total_is_sum(samples, windows.drop_last(), reward_per_second, percent);
    }
}

/// One sample more adds what the positions earn on it.
proof fn lemma_total_step(
    samples: Seq<RewardRate>,
    windows: Seq<Window>,
    n: int,
    reward_per_second: u128,
    percent: u128,
)
    requires
        0 <= n,
    ensures
        total_upto(samples, windows, n + 1, reward_per_second, percent) == total_upto(
            samples,
            windows,
            n,
            reward_per_second,
            percent,
        ) + column(samples, windows, n, reward_per_second, percent),
    decreases windows.len(),
{
    if windows.len() > 0 {
        lemma_total_step(samples, windows.drop_last(), n, reward_per_second, percent);
    }
}

/// Positions that share a segment earn no more than the segment owes:
/// `count * (owed / rate / 100) <= owed / 100` where `count <= rate`.
proof fn lemma_shares_within_whole(count: int, rate: int, owed: int)
    requires
        0 <= count <= rate,
        0 < rate,
        0 <= owed,
    ensures
        count * (owed / rate / 100) <= owed / 100,
{
    let each = owed / rate / 100;
    let per_rate = owed / rate;
    assert(per_rate * rate <= owed) by (nonlinear_arith)
        requires
            per_rate == owed / rate,
            rate > 0,
            owed >= 0,
    ;
    assert(each * 100 <= per_rate) by (nonlinear_arith)
        requires
            each == per_rate / 100,
            per_rate >= 0,
    ;
    assert(each >= 0) by (nonlinear_arith)
        requires
            each == per_rate / 100,
            per_rate >= 0,
    ;
    assert(per_rate >= 0) by (nonlinear_arith)
        requires
            per_rate == owed / rate,
            rate > 0,
            owed >= 0,
    ;
    assert(count * each * 100 <= owed) by (nonlinear_arith)
        requires
            0 <= count <= rate,
            each >= 0,
            each * 100 <= per_rate,
            per_rate * rate <= owed,
            per_rate >= 0,
    ;
    assert(count * each <= owed / 100) by (nonlinear_arith)
        requires
            count * each * 100 <= owed,
    ;
}

/// On a sample that starts a segment, the positions earn no more than the
/// number of those that are accruing times the reward of the whole segment.
#[verifier::rlimit(50)]
proof fn lemma_column_bound(
    samples: Seq<RewardRate>,
    windows: Seq<Window>,
    j: int,
    reward_per_second: u128,
    percent: u128,
)
    requires
        ascending(samples, by_timestamp()),
        0 <= j < samples.len() - 1,
    ensures
        0 <= column(samples, windows, j, reward_per_second, percent) <= accruing_at(
            windows,
            samples[j].timestamp,
        ) * segment_reward(
            samples[j + 1].timestamp - samples[j].timestamp,
            reward_per_second,
            percent,
            samples[j].rate,
        ),
    decreases windows.len(),
{
    reveal(Seq::filter);
    let time = samples[j].timestamp;
    let next = samples[j + 1].timestamp;
    assert((by_timestamp())(samples[j]) <= (by_timestamp())(samples[j + 1]));
    let whole = segment_reward(next - time, reward_per_second, percent, samples[j].rate);
    lemma_segment_reward_bounds(next - time, reward_per_second, percent, samples[j].rate);
    if windows.len() > 0 {
        let front = windows.drop_last();
        let window = windows.last();
        lemma_column_bound(samples, front, j, reward_per_second, percent);
        let count = accruing_at(front, time) as int;
        assert(accruing_at(windows, time) == count + if (covers(time))(window) {
            1int
        } else {
            0int
        });
        let length = segment_end(samples, j, window.end) - time;
        lemma_segment_reward_bounds(length, reward_per_second, percent, samples[j].rate);
        if window.start <= time <= window.end {
            if time < window.end {
                lemma_segment_reward_grows(
                    length,
                    next - time,
                    reward_per_second,
                    percent,
                    samples[j].rate,
                );
                assert((count + 1) * whole == count * whole + whole) by (nonlinear_arith);
            } else {
                assert(length == 0);
                assert(saturate(saturate(0 * reward_per_second) * percent) == 0)
                    by (nonlinear_arith);
                let rate = samples[j].rate as int;
                if rate != 0 {
                    assert(0int / rate / 100 == 0) by (nonlinear_arith)
                        requires
                            rate > 0,
                    ;
                }
            }
        }
    } else {
        assert(accruing_at(windows, time) * whole == 0) by (nonlinear_arith)
            requires
                accruing_at(windows, time) == 0,
        ;
    }
}

/// On the last sample of a curve that reaches as far as the accruals, no
/// position earns anything.
proof fn lemma_last_column(
    samples: Seq<RewardRate>,
    windows: Seq<Window>,
    reward_per_second: u128,
    percent: u128,
)
    requires
        samples.len() > 0,
        forall|i: int| 0 <= i < windows.len() ==> windows[i].end <= samples.last().timestamp,
    ensures
        column(samples, windows, samples.len() - 1, reward_per_second, percent) == 0,
    decreases windows.len(),
{
    if windows.len() > 0 {
        let front = windows.drop_last();
        assert forall|i: int| 0 <= i < front.len() implies front[i].end
            <= samples.last().timestamp by {
            assert(front[i] == windows[i]);
        }
        lemma_last_column(samples, front, reward_per_second, percent);
        let window = windows.last();
        let j = samples.len() - 1;
        assert(window == windows[windows.len() - 1]);
        if window.start <= samples[j].timestamp <= window.end {
            assert(segment_end(samples, j, window.end) - samples[j].timestamp == 0);
            assert(saturate(saturate(0 * reward_per_second) * percent) == 0) by (nonlinear_arith);
            let rate = samples[j].rate as int;
            if rate != 0 {
                assert(0int / rate / 100 == 0) by (nonlinear_arith)
                    requires
                        rate > 0,
                ;
            }
        }
    }
}

/// On the first `n` segments, the positions earn no more than the term
/// owes for them.
#[verifier::rlimit(50)]
proof fn lemma_rewards_upto(
    samples: Seq<RewardRate>,
    windows: Seq<Window>,
    n: int,
    reward_per_second: u128,
    percent: u128,
)
    requires
        ascending(samples, by_timestamp()),
        forall|j: int|
            0 <= j < samples.len() ==> accruing_at(windows, #[trigger] samples[j].timestamp)
                <= samples[j].rate,
        0 <= n <= samples.len() - 1,
    ensures
        total_upto(samples, windows, n, reward_per_second, percent) <= liability_upto(
            samples,
            n,
            reward_per_second,
            percent,
        ),
    decreases n,
{
    if n == 0 {
        lemma_total_zero(samples, windows, reward_per_second, percent);
    } else {
        let j = n - 1;
        lemma_rewards_upto(samples, windows, j, reward_per_second, percent);
        lemma_total_step(samples, windows, j, reward_per_second, percent);
        lemma_column_bound(samples, windows, j, reward_per_second, percent);
        let time = samples[j].timestamp;
        let length = samples[j + 1].timestamp - time;
        let rate = samples[j].rate as int;
        let count = accruing_at(windows, time) as int;
        let each = segment_reward(length, reward_per_second, percent, samples[j].rate);
        let owed = saturate(saturate(length * reward_per_second) * percent);
        assert((by_timestamp())(samples[j]) <= (by_timestamp())(samples[j + 1]));
        if rate == 0 {
            assert(count * each == 0) by (nonlinear_arith)
                requires
                    count == 0,
            ;
        } else if length == 0 {
            assert(saturate(saturate(0 * reward_per_second) * percent) == 0) by (nonlinear_arith);
            assert(0int / rate / 100 == 0) by (nonlinear_arith)
                requires
                    rate > 0,
            ;
            assert(count * each == 0) by (nonlinear_arith)
                requires
                    each == 0,
            ;
        } else {
            lemma_shares_within_whole(count, rate, owed);
        }
    }
}

/// On no samples, nothing is earned.
proof fn lemma_total_zero(
    samples: Seq<RewardRate>,
    windows: Seq<Window>,
    reward_per_second: u128,
    percent: u128,
)
    ensures
        total_upto(samples, windows, 0, reward_per_second, percent) == 0,
    decreases windows.len(),
{
    if windows.len() > 0 {
        lemma_total_zero(samples, windows.drop_last(), reward_per_second, percent);
    }
}

/// The positions of a term earn no more than the term owes.
///
/// Where a curve is in ascending order of time, counts at each of its
/// samples at least the positions that are accruing then, and reaches as far
/// as the accruals, what the positions earn on it together is no more than
/// what the term owes for it.
pub proof fn lemma_rewards_within_liability(
    samples: Seq<RewardRate>,
    windows: Seq<Window>,
    reward_per_second: u128,
    percent: u128,
)
    requires
        ascending(samples, by_timestamp()),
        forall|j: int|
            0 <= j < samples.len() ==> accruing_at(windows, #[trigger] samples[j].timestamp)
                <= samples[j].rate,
        forall|i: int|
            0 <= i < windows.len() ==> samples.len() > 0 && (#[trigger] windows[i]).end
                <= samples.last().timestamp,
    ensures
        total_accrued(samples, windows, reward_per_second, percent) <= curve_liability(
            samples,
            reward_per_second,
            percent,
        ),
{
    lemma_total_is_sum(samples, windows, reward_per_second, percent);
    if samples.len() == 0 {
        assert(windows.len() == 0) by {
            if windows.len() > 0 {
                assert(windows[0].end <= samples.last().timestamp);
            }
        }
    } else {
        let n = samples.len() - 1;
        lemma_rewards_upto(samples, windows, n, reward_per_second, percent);
        lemma_total_step(samples, windows, n, reward_per_second, percent);
        lemma_last_column(samples, windows, reward_per_second, percent);
    }
}

/// What a term owes for its curve is no more than its share of what the
/// campaign emits over the time that the curve spans.
pub proof fn lemma_liability_within_share(
    samples: Seq<RewardRate>,
    n: int,
    reward_per_second: u128,
    percent: u128,
)
    requires
        ascending(samples, by_timestamp()),
        0 <= n < samples.len(),
    ensures
        liability_upto(samples, n, reward_per_second, percent) <= ((samples[n].timestamp
            - samples[0].timestamp) * reward_per_second * percent) / 100,
    decreases n,
{
    let r = reward_per_second as int;
    let p = percent as int;
    if n == 0 {
        assert((0 * r * p) / 100 == 0) by (nonlinear_arith);
    } else {
        lemma_liability_within_share(samples, n - 1, reward_per_second, percent);
        assert((by_timestamp())(samples[0]) <= (by_timestamp())(samples[n - 1]));
        assert((by_timestamp())(samples[n - 1]) <= (by_timestamp())(samples[n]));
        let before = samples[n - 1].timestamp - samples[0].timestamp;
        let length = samples[n].timestamp - samples[n - 1].timestamp;
        let owed = saturate(saturate(length * r) * p);
        assert(0 <= length * r) by (nonlinear_arith)
            requires
                length >= 0,
                r >= 0,
        ;
        assert(saturate(length * r) * p <= length * r * p) by (nonlinear_arith)
            requires
                0 <= saturate(length * r) <= length * r,
                p >= 0,
        ;
        assert(0 <= before * r * p) by (nonlinear_arith)
            requires
                before >= 0,
                r >= 0,
                p >= 0,
        ;
        assert(0 <= saturate(length * r) * p) by (nonlinear_arith)
            requires
                0 <= saturate(length * r),
                p >= 0,
        ;
        assert((before + length) * r * p == before * r * p + length * r * p)
            by (nonlinear_arith);
        let a = before * r * p;
        let b = length * r * p;
        lemma_div_is_ordered(owed, b, 100);
        assert(a / 100 + b / 100 <= (a + b) / 100) by (nonlinear_arith)
            requires
                a >= 0,
                b >= 0,
        ;
    }
}

/// What a campaign emits over its duration is no more than its balance.
pub proof fn lemma_emission_within_balance(balance: u128, duration: int)
    requires
        0 < duration,
    ensures
        emission(balance, duration) * duration <= balance,
{
    let amount = balance as int;
    assert((amount / duration) * duration <= amount) by (nonlinear_arith)
        requires
            amount >= 0,
            duration > 0,
    ;
    assert(0 <= amount / duration <= amount) by (nonlinear_arith)
        requires
            amount >= 0,
            duration > 0,
    ;
}

/// The sum of the shares of `emitted` that the terms `terms` get, each
/// rounded down.
pub open spec fn shares_of(terms: Seq<LockupTerm>, emitted: int) -> int
    decreases terms.len(),
{
    if terms.len() == 0 {
        0
    } else {
        shares_of(terms.drop_last(), emitted) + (emitted * terms.last().percent) / 100
    }
}

/// The shares of the terms together are no more than the whole, where the
/// percentages of the terms add up to one hundred.
pub proof fn lemma_shares_within_emission(terms: Seq<LockupTerm>, emitted: int)
    requires
        0 <= emitted,
    ensures
        shares_of(terms, emitted) <= (emitted * percent_sum(terms)) / 100,
        0 <= percent_sum(terms),
        percent_sum(terms) == 100 ==> shares_of(terms, emitted) <= emitted,
    decreases terms.len(),
{
    if terms.len() == 0 {
        assert((emitted * 0) / 100 == 0) by (nonlinear_arith);
    } else {
        let front = terms.drop_last();
        lemma_shares_within_emission(front, emitted);
        let a = emitted * percent_sum(front);
        let b = emitted * terms.last().percent;
        assert(a >= 0 && b >= 0) by (nonlinear_arith)
            requires
                emitted >= 0,
                percent_sum(front) >= 0,
                terms.last().percent >= 0,
                a == emitted * percent_sum(front),
                b == emitted * terms.last().percent,
        ;
        assert(a / 100 + b / 100 <= (a + b) / 100) by (nonlinear_arith)
            requires
                a >= 0,
                b >= 0,
        ;
        assert(emitted * percent_sum(terms) == a + b) by (nonlinear_arith)
            requires
                percent_sum(terms) == percent_sum(front) + terms.last().percent,
                a == emitted * percent_sum(front),
                b == emitted * terms.last().percent,
        ;
    }
    if percent_sum(terms) == 100 {
        assert((emitted * 100) / 100 == emitted) by (nonlinear_arith);
    }
}

/// Accruals add up: on a curve in ascending order of time with a sample
/// at `middle`, what a position earns from `start` to `middle` and from
/// `middle` to `end` is what it earns from `start` to `end`.
pub proof fn lemma_accruals_add_up(
    samples: Seq<RewardRate>,
    n: int,
    start: u64,
    middle: u64,
    end: u64,
    reward_per_second: u128,
    percent: u128,
)
    requires
        ascending(samples, by_timestamp()),
        start <= middle <= end,
        exists|i: int| 0 <= i < samples.len() && samples[i].timestamp == middle,
        0 <= n <= samples.len(),
    ensures
        accrued_upto(samples, n, start, middle, reward_per_second, percent) + accrued_upto(
            samples,
            n,
            middle,
            end,
            reward_per_second,
            percent,
        ) == accrued_upto(samples, n, start, end, reward_per_second, percent),
    decreases n,
{
    if n > 0 {
        lemma_accruals_add_up(samples, n - 1, start, middle, end, reward_per_second, percent);
        let j = n - 1;
        let time = samples[j].timestamp;
        let at = choose|i: int| 0 <= i < samples.len() && samples[i].timestamp == middle;
        if j + 1 < samples.len() {
            assert((by_timestamp())(samples[j]) <= (by_timestamp())(samples[j + 1]));
        }
        if time < middle {
            assert(j < at) by {
                if at <= j {
                    if at < j {
                        assert((by_timestamp())(samples[at]) <= (by_timestamp())(samples[j]));
                    }
                }
            }
            if j + 1 < at {
                assert((by_timestamp())(samples[j + 1]) <= (by_timestamp())(samples[at]));
            }
            assert(samples[j + 1].timestamp <= middle);
            assert(segment_end(samples, j, middle) == segment_end(samples, j, end));
        } else if time == middle {
            assert(segment_end(samples, j, middle) == middle);
            assert(saturate(saturate(0 * reward_per_second) * percent) == 0) by (nonlinear_arith);
            let rate = samples[j].rate as int;
            if rate != 0 {
                assert(0int / rate / 100 == 0) by (nonlinear_arith)
                    requires
                        rate > 0,
                ;
            }
        }
    }
}

/// The times over which the positions that `events` staked accrue up to
/// `time`: each from its start to the end of its lock, but not behind
/// `time`.
pub open spec fn stays_of(events: Seq<TermEvent>, time: u64) -> Seq<Window>
    decreases events.len(),
{
    if events.len() == 0 {
        Seq::empty()
    } else {
        match events.last() {
            TermEvent::Stake { at, end } => stays_of(events.drop_last(), time).push(
                Window {
                    start: at,
                    end: if end < time {
                        end
                    } else {
                        time
                    },
                },
            ),
            _ => stays_of(events.drop_last(), time),
        }
    }
}

/// The positions that are accruing at a time are locked then.
proof fn lemma_accruing_are_active(events: Seq<TermEvent>, time: u64, at: u64)
    ensures
        accruing_at(stays_of(events, time), at) <= active_at(events, at),
        forall|i: int|
            0 <= i < stays_of(events, time).len() ==> (#[trigger] stays_of(events, time)[i]).end
                <= time,
    decreases events.len(),
{
    reveal(Seq::filter);
    if events.len() > 0 {
        let front = events.drop_last();
        lemma_accruing_are_active(front, time, at);
        let stays = stays_of(front, time);
        match events.last() {
            TermEvent::Stake { at: start, end } => {
                let window = Window {
                    start,
                    end: if end < time {
                        end
                    } else {
                        time
                    },
                };
                stays.lemma_filter_push(window, covers(at));
                assert forall|i: int| 0 <= i < stays.push(window).len() implies (
                #[trigger] stays.push(window)[i]).end <= time by {
                    if i < stays.len() {
                        assert(stays.push(window)[i] == stays[i]);
                    }
                }
            },
            _ => {},
        }
    }
}

/// The positions of a term earn no more than the term's share of the
/// emission.
///
/// After any stake and unstake events, and integrations in between, in the
/// order of their times, take the curve of the term settled at a time not
/// before the last event. What the staked positions earn on it, each from
/// its start to the end of its lock or to that time, is together no more
/// than what the term owes for the curve, and that is no more than the
/// term's share of what the campaign emits over the time that the curve
/// spans.
pub proof fn lemma_term_conservation(
    events: Seq<TermEvent>,
    time: u64,
    reward_per_second: u128,
    percent: u128,
)
    requires
        events_wf(events, time),
        events.len() < u64::MAX,
    ensures
        ({
            let samples = settle_at(term_after(events), time).samples;
            &&& samples.len() > 0
            &&& samples[0].timestamp <= time
            &&& total_accrued(samples, stays_of(events, time), reward_per_second, percent)
                <= curve_liability(samples, reward_per_second, percent)
            &&& curve_liability(samples, reward_per_second, percent) <= ((time
                - samples[0].timestamp) * reward_per_second * percent) / 100
        }),
{
    let samples = settle_at(term_after(events), time).samples;
    let stays = stays_of(events, time);
    lemma_curve_counts_active(events, time);
    assert(ascending(samples, by_timestamp())) by {
        assert forall|i: int, j: int| 0 <= i < j < samples.len() implies (by_timestamp())(
            samples[i],
        ) <= (by_timestamp())(samples[j]) by {
            assert((by_timestamp())(samples[i]) < (by_timestamp())(samples[j]));
        }
    }
    assert forall|j: int| 0 <= j < samples.len() implies accruing_at(
        stays,
        #[trigger] samples[j].timestamp,
    ) <= samples[j].rate by {
        lemma_accruing_are_active(events, time, samples[j].timestamp);
    }
    lemma_accruing_are_active(events, time, time);
    lemma_rewards_within_liability(samples, stays, reward_per_second, percent);
    lemma_liability_within_share(samples, samples.len() - 1, reward_per_second, percent);
    if samples.len() > 1 {
        assert((by_timestamp())(samples[0]) < (by_timestamp())(samples[samples.len() - 1]));
    }
}

/// The shares of the terms are covered by the balance: where the
/// percentages of the terms add up to one hundred, the shares of what the
/// campaign emits in any part of its duration are together no more than the
/// balance from which its emission was set.
pub proof fn lemma_shares_within_balance(
    terms: Seq<LockupTerm>,
    balance: u128,
    duration: int,
    span: int,
)
    requires
        percent_sum(terms) == 100,
        0 <= span <= duration,
        0 < duration,
    ensures
        shares_of(terms, span * emission(balance, duration)) <= balance,
{
    let rate = emission(balance, duration) as int;
    lemma_emission_within_balance(balance, duration);
    assert(0 <= span * rate <= duration * rate) by (nonlinear_arith)
        requires
            0 <= span <= duration,
            0 <= rate,
    ;
    assert(duration * rate == rate * duration) by (nonlinear_arith);
    lemma_shares_within_emission(terms, span * rate);
}

} // verus!
