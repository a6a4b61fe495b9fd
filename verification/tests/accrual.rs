use staking_campaign::campaign::state::{LockupTerm, NftInfo, RewardRate};
use staking_campaign::campaign::utils::{
    add_reward, calc_reward_in_time, calculate_reward, fold_expired, stake_nft, sub_reward,
    update_reward_rate,
};
use staking_campaign::math::AmountError;

fn sample(timestamp: u64, rate: u64) -> RewardRate {
    RewardRate { timestamp, rate }
}

fn position(key: u64, start: u64, duration: u64, percent: u128) -> NftInfo {
    NftInfo {
        key,
        token_id: format!("{}", key),
        owner: "staker".to_string(),
        pending_reward: 0,
        lockup_term: LockupTerm { value: duration, percent },
        is_end_reward: false,
        start_time: start,
        time_calc: start,
        end_time: start + duration,
    }
}

#[test]
fn update_adds_a_sample_to_an_empty_curve() {
    let (curve, total) = update_reward_rate(vec![], 0, 10, 1);
    assert_eq!(curve, vec![sample(10, 1)]);
    assert_eq!(total, 1);
}

#[test]
fn update_overwrites_the_sample_of_the_same_time() {
    let (curve, total) = update_reward_rate(vec![sample(10, 1), sample(20, 2)], 2, 10, -1);
    assert_eq!(curve, vec![sample(10, 1), sample(20, 2)]);
    assert_eq!(total, 1);
    let (curve, total) = update_reward_rate(curve, 5, 20, 1);
    assert_eq!(curve, vec![sample(10, 1), sample(20, 6)]);
    assert_eq!(total, 6);
}

#[test]
fn update_puts_an_earlier_sample_in_its_place() {
    let (curve, total) = update_reward_rate(vec![sample(10, 1), sample(30, 2)], 2, 20, 0);
    assert_eq!(curve, vec![sample(10, 1), sample(20, 2), sample(30, 2)]);
    assert_eq!(total, 2);
    let (curve, _) = update_reward_rate(curve, 2, 5, 1);
    assert_eq!(curve, vec![sample(5, 3), sample(10, 1), sample(20, 2), sample(30, 2)]);
}

#[test]
fn update_never_takes_the_total_below_zero() {
    let (curve, total) = update_reward_rate(vec![], 0, 7, -1);
    assert_eq!(curve, vec![sample(7, 0)]);
    assert_eq!(total, 0);
    let (_, total) = update_reward_rate(vec![], 3, 7, -10);
    assert_eq!(total, 0);
}

#[test]
fn update_keeps_the_total_within_its_range() {
    let (_, total) = update_reward_rate(vec![], u64::MAX, 7, 1);
    assert_eq!(total, u64::MAX);
    let (_, total) = update_reward_rate(vec![], u64::MAX - 1, 7, 0);
    assert_eq!(total, u64::MAX - 1);
    let (_, total) = update_reward_rate(vec![], 1 << 63, 7, -1);
    assert_eq!(total, (1 << 63) - 1);
}

#[test]
fn update_sorts_a_curve_that_is_out_of_order() {
    let (curve, _) = update_reward_rate(vec![sample(30, 3), sample(10, 1), sample(20, 2)], 0, 40, 4);
    assert_eq!(curve, vec![sample(10, 1), sample(20, 2), sample(30, 3), sample(40, 4)]);
}

#[test]
fn update_overwrites_the_first_of_two_samples_of_one_time() {
    let (curve, _) = update_reward_rate(vec![sample(10, 1), sample(10, 2)], 6, 10, 1);
    assert_eq!(curve, vec![sample(10, 7), sample(10, 2)]);
}

#[test]
fn stake_records_the_new_position() {
    let (expirations, curve, total) = stake_nft(vec![], vec![], 0, position(1, 10, 10, 30), 10);
    assert_eq!(expirations, vec![20]);
    assert_eq!(curve, vec![sample(10, 1)]);
    assert_eq!(total, 1);
}

#[test]
fn stake_folds_the_positions_that_ran_out() {
    let (expirations, curve, total) = stake_nft(vec![], vec![], 0, position(1, 10, 10, 30), 10);
    let (expirations, curve, total) =
        stake_nft(expirations, curve, total, position(2, 15, 10, 30), 15);
    assert_eq!(expirations, vec![20, 25]);
    assert_eq!(curve, vec![sample(10, 1), sample(15, 2)]);
    assert_eq!(total, 2);
    let (expirations, curve, total) =
        stake_nft(expirations, curve, total, position(3, 22, 10, 30), 22);
    assert_eq!(expirations, vec![25, 32]);
    assert_eq!(curve, vec![sample(10, 1), sample(15, 2), sample(20, 1), sample(22, 2)]);
    assert_eq!(total, 2);
}

#[test]
fn stake_at_the_time_of_an_expiration_counts_both() {
    let (expirations, curve, total) = stake_nft(vec![20], vec![sample(10, 1)], 1, position(2, 20, 10, 30), 20);
    assert_eq!(expirations, vec![30]);
    assert_eq!(curve, vec![sample(10, 1), sample(20, 1)]);
    assert_eq!(total, 1);
}

#[test]
fn expirations_are_folded_in_ascending_order() {
    let (expirations, curve, total) =
        stake_nft(vec![20, 10, 40], vec![sample(0, 2)], 2, position(3, 30, 10, 30), 30);
    assert_eq!(expirations, vec![40, 40]);
    assert_eq!(curve, vec![sample(0, 2), sample(10, 1), sample(20, 0), sample(30, 1)]);
    assert_eq!(total, 1);
}

#[test]
fn one_position_alone_for_six_seconds() {
    let nft = position(1, 20, 10, 30);
    let (expirations, curve, total) = stake_nft(vec![], vec![], 0, nft.clone(), 20);
    let (nft, curve, total, expirations) =
        calculate_reward(nft, curve, expirations, total, 26, 120, 10000);
    assert_eq!(nft.pending_reward, 18000);
    assert_eq!(nft.time_calc, 26);
    assert!(!nft.is_end_reward);
    assert_eq!(curve, vec![sample(20, 1), sample(26, 1)]);
    assert_eq!(total, 1);
    assert_eq!(expirations, vec![30]);
}

#[test]
fn two_positions_share_a_term_for_six_seconds() {
    let first = position(1, 20, 10, 30);
    let second = position(2, 20, 10, 30);
    let (expirations, curve, total) = stake_nft(vec![], vec![], 0, first.clone(), 20);
    let (expirations, curve, total) = stake_nft(expirations, curve, total, second.clone(), 20);
    assert_eq!(curve, vec![sample(20, 2)]);
    let (first, curve, total, expirations) =
        calculate_reward(first, curve, expirations, total, 26, 120, 10000);
    let (second, curve, total, expirations) =
        calculate_reward(second, curve, expirations, total, 26, 120, 10000);
    assert_eq!(first.pending_reward, 9000);
    assert_eq!(second.pending_reward, 9000);
    assert_eq!(curve, vec![sample(20, 2), sample(26, 2)]);
    assert_eq!(total, 2);
    assert_eq!(expirations, vec![30, 30]);
}

#[test]
fn a_position_that_joins_later_changes_the_share() {
    let first = position(1, 20, 10, 30);
    let second = position(2, 21, 10, 30);
    let (expirations, curve, total) = stake_nft(vec![], vec![], 0, first.clone(), 20);
    let (expirations, curve, total) = stake_nft(expirations, curve, total, second.clone(), 21);
    let (first, curve, total, expirations) =
        calculate_reward(first, curve, expirations, total, 27, 120, 10000);
    let (second, _, _, _) = calculate_reward(second, curve, expirations, total, 27, 120, 10000);
    assert_eq!(first.pending_reward, 3000 + 9000);
    assert_eq!(second.pending_reward, 9000);
}

#[test]
fn the_divisions_round_down_one_after_the_other() {
    let nft = position(1, 0, 100, 33);
    let curve = vec![sample(0, 7)];
    let (nft, _, _, _) = calculate_reward(nft, curve, vec![], 7, 1, 1000, 10);
    // 1 * 10 * 33 / 7 = 47, and 47 / 100 = 0
    assert_eq!(nft.pending_reward, 0);
    let nft = position(1, 0, 100, 33);
    let (nft, _, _, _) = calculate_reward(nft, vec![sample(0, 7)], vec![], 7, 3, 1000, 1000);
    // 3 * 1000 * 33 / 7 = 14142, and 14142 / 100 = 141
    assert_eq!(nft.pending_reward, 141);
}

#[test]
fn a_segment_without_active_positions_earns_nothing() {
    let nft = position(1, 0, 100, 50);
    let curve = vec![sample(0, 0), sample(10, 1)];
    let (nft, _, _, _) = calculate_reward(nft, curve, vec![], 1, 20, 1000, 100);
    assert_eq!(nft.pending_reward, 10 * 100 * 50 / 100);
}

#[test]
fn integration_closes_the_position_at_the_end_of_its_lock() {
    let nft = position(1, 20, 10, 30);
    let (expirations, curve, total) = stake_nft(vec![], vec![], 0, nft.clone(), 20);
    let (nft, curve, total, expirations) =
        calculate_reward(nft, curve, expirations, total, 45, 120, 10000);
    assert_eq!(nft.pending_reward, 30000);
    assert_eq!(nft.time_calc, 30);
    assert!(nft.is_end_reward);
    assert_eq!(curve, vec![sample(20, 1), sample(30, 0), sample(45, 0)]);
    assert_eq!(total, 0);
    assert_eq!(expirations, Vec::<u64>::new());
}

#[test]
fn integration_closes_the_position_at_the_end_of_the_campaign() {
    let nft = position(1, 20, 100, 30);
    let (expirations, curve, total) = stake_nft(vec![], vec![], 0, nft.clone(), 20);
    let (nft, _, total, expirations) =
        calculate_reward(nft, curve, expirations, total, 50, 50, 10000);
    assert_eq!(nft.pending_reward, 30 * 10000 * 30 / 100);
    assert_eq!(nft.time_calc, 50);
    assert!(nft.is_end_reward);
    assert_eq!(total, 1);
    assert_eq!(expirations, vec![120]);
}

#[test]
fn a_closed_position_stays_as_it_is() {
    let mut nft = position(1, 20, 10, 30);
    nft.is_end_reward = true;
    nft.pending_reward = 5;
    let (after, curve, total, expirations) =
        calculate_reward(nft.clone(), vec![sample(20, 1)], vec![30], 1, 100, 120, 10000);
    assert_eq!(after, nft);
    assert_eq!(curve, vec![sample(20, 1)]);
    assert_eq!(total, 1);
    assert_eq!(expirations, vec![30]);
}

#[test]
fn integration_before_the_accrual_time_settles_the_term_only() {
    let mut nft = position(1, 20, 10, 30);
    nft.time_calc = 25;
    nft.pending_reward = 7;
    let (after, curve, total, expirations) =
        calculate_reward(nft.clone(), vec![sample(10, 2), sample(20, 3)], vec![22, 30], 3, 23, 120, 10000);
    assert_eq!(after, nft);
    assert_eq!(curve, vec![sample(10, 2), sample(20, 3), sample(22, 2), sample(23, 2)]);
    assert_eq!(total, 2);
    assert_eq!(expirations, vec![30]);
}

#[test]
fn integration_is_idempotent_at_a_fixed_time() {
    let nft = position(1, 20, 10, 30);
    let (expirations, curve, total) = stake_nft(vec![], vec![], 0, nft.clone(), 20);
    let (expirations, curve, total) =
        stake_nft(expirations, curve, total, position(2, 22, 3, 30), 22);
    let once = calculate_reward(nft, curve, expirations, total, 27, 120, 10000);
    let twice = calculate_reward(
        once.0.clone(),
        once.1.clone(),
        once.3.clone(),
        once.2,
        27,
        120,
        10000,
    );
    assert_eq!(once, twice);
    assert_eq!(once.0.pending_reward, 6000 + 4500 + 6000);
}

#[test]
fn the_pending_reward_grows_with_the_time_of_integration() {
    let nft = position(1, 20, 10, 30);
    let (expirations, curve, total) = stake_nft(vec![], vec![], 0, nft.clone(), 20);
    let (expirations, curve, total) =
        stake_nft(expirations, curve, total, position(2, 22, 3, 30), 22);
    let mut before = 0;
    for now in 20..40 {
        let (after, _, _, _) = calculate_reward(
            nft.clone(),
            curve.clone(),
            expirations.clone(),
            total,
            now,
            120,
            10000,
        );
        assert!(after.pending_reward >= before);
        before = after.pending_reward;
    }
    assert_eq!(before, 6000 + 4500 + 15000);
}

#[test]
fn the_total_counts_the_positions_that_are_locked() {
    let stays = [(10u64, 20u64), (12, 22), (15, 25), (21, 31), (24, 34)];
    let mut term = (vec![], vec![], 0u64);
    for (i, (start, end)) in stays.iter().enumerate() {
        term = stake_nft(term.0, term.1, term.2, position(i as u64, *start, end - start, 30), *start);
    }
    for time in 24..40 {
        let locked = stays.iter().filter(|(start, end)| *start <= time && time < *end).count();
        let (_, _, total, _) = calculate_reward(
            position(9, 0, 1000, 30),
            term.1.clone(),
            term.0.clone(),
            term.2,
            time,
            1000,
            1,
        );
        assert_eq!(total, locked as u64);
    }
}

#[test]
fn the_accrual_saturates() {
    let mut nft = position(1, 0, 100, 100);
    nft.pending_reward = u128::MAX - 5;
    let (nft, _, _, _) = calculate_reward(nft, vec![sample(0, 1)], vec![], 1, 10, 1000, 100);
    assert_eq!(nft.pending_reward, u128::MAX);
    let nft = position(1, 0, 100, 100);
    let (nft, _, _, _) = calculate_reward(nft, vec![sample(0, 1)], vec![], 1, 10, 1000, u128::MAX);
    assert_eq!(nft.pending_reward, u128::MAX / 100);
}

#[test]
fn rewards_are_added_and_taken_off() {
    assert_eq!(add_reward(5, 7), Ok(12));
    assert_eq!(add_reward(u128::MAX, 1), Err(AmountError::Overflow));
    assert_eq!(add_reward(u128::MAX, 0), Ok(u128::MAX));
    assert_eq!(sub_reward(7, 5), Ok(2));
    assert_eq!(sub_reward(5, 5), Ok(0));
    assert_eq!(sub_reward(5, 7), Err(AmountError::Overflow));
}

#[test]
fn the_reward_in_time_is_divided_once() {
    assert_eq!(calc_reward_in_time(20, 26, 10000, 30, 1), Ok(18000));
    assert_eq!(calc_reward_in_time(20, 26, 10000, 30, 2), Ok(9000));
    assert_eq!(calc_reward_in_time(0, 3, 1000, 33, 7), Ok(141));
    assert_eq!(calc_reward_in_time(0, 1, 10, 33, 7), Ok(0));
    assert_eq!(calc_reward_in_time(0, 1, 10, 33, 0), Err(AmountError::DivideByZero));
}

#[test]
fn folding_applies_the_expirations_that_have_run_out() {
    let (pending, curve, total) =
        fold_expired(vec![30, 12, 50, 20, 12], vec![sample(10, 5)], 5, 20);
    assert_eq!(pending, vec![30, 50]);
    assert_eq!(curve, vec![sample(10, 5), sample(12, 3), sample(20, 2)]);
    assert_eq!(total, 2);
    // folding again at the same time changes nothing
    let again = fold_expired(pending.clone(), curve.clone(), total, 20);
    assert_eq!(again, (pending, curve, total));
}

#[test]
fn folding_without_expirations_leaves_the_term_as_it_is() {
    let (pending, curve, total) = fold_expired(vec![30, 50], vec![sample(10, 2)], 2, 29);
    assert_eq!(pending, vec![30, 50]);
    assert_eq!(curve, vec![sample(10, 2)]);
    assert_eq!(total, 2);
    let (pending, curve, total) = fold_expired(vec![], vec![], 0, 29);
    assert_eq!(pending, Vec::<u64>::new());
    assert_eq!(curve, vec![]);
    assert_eq!(total, 0);
}

#[test]
fn every_sample_counts_the_positions_that_are_locked() {
    let stays = [(10u64, 20u64), (12, 22), (15, 25), (20, 30), (24, 34), (24, 27)];
    let mut term = (vec![], vec![], 0u64);
    for (i, (start, end)) in stays.iter().enumerate() {
        term = stake_nft(term.0, term.1, term.2, position(i as u64, *start, end - start, 30), *start);
    }
    let (_, curve, _, _) =
        calculate_reward(position(9, 0, 1000, 30), term.1, term.0, term.2, 40, 1000, 1);
    assert_eq!(curve.last(), Some(&sample(40, 0)));
    for counted in curve {
        let locked = stays
            .iter()
            .filter(|(start, end)| *start <= counted.timestamp && counted.timestamp < *end)
            .count();
        assert_eq!(counted.rate, locked as u64);
    }
}

#[test]
fn accruals_add_up() {
    let nft = position(1, 20, 30, 30);
    let (expirations, curve, total) = stake_nft(vec![], vec![], 0, nft.clone(), 20);
    let (expirations, curve, total) =
        stake_nft(expirations, curve, total, position(2, 22, 5, 30), 22);
    let (expirations, curve, total) =
        stake_nft(expirations, curve, total, position(3, 31, 5, 30), 31);
    // in one step
    let (whole, _, _, _) =
        calculate_reward(nft.clone(), curve.clone(), expirations.clone(), total, 60, 120, 1000);
    // in three steps, each on the term that the one before left
    let (part, curve, total, expirations) =
        calculate_reward(nft, curve, expirations, total, 25, 120, 1000);
    let (part, curve, total, expirations) =
        calculate_reward(part, curve, expirations, total, 33, 120, 1000);
    let (part, _, _, _) = calculate_reward(part, curve, expirations, total, 60, 120, 1000);
    assert_eq!(part, whole);
    assert_eq!(whole.pending_reward, 600 + 750 + 1200 + 750 + 300 * 14);
}

#[test]
fn the_positions_of_a_term_earn_no_more_than_its_share() {
    let stays = [(0u64, 7u64), (0, 7), (0, 7), (3, 10), (5, 12), (5, 12), (9, 16)];
    let mut term = (vec![], vec![], 0u64);
    for (i, (start, end)) in stays.iter().enumerate() {
        term = stake_nft(term.0, term.1, term.2, position(i as u64, *start, end - start, 33), *start);
    }
    let mut earned = 0;
    for (i, (start, end)) in stays.iter().enumerate() {
        let (nft, _, _, _) = calculate_reward(
            position(i as u64, *start, end - start, 33),
            term.1.clone(),
            term.0.clone(),
            term.2,
            20,
            20,
            1000,
        );
        assert!(nft.is_end_reward);
        earned += nft.pending_reward;
    }
    // positions were locked from 0 to 16
    assert!(earned <= 16 * 1000 * 33 / 100);
    assert!(earned >= 16 * 1000 * 33 / 100 - 16);
}
