use staking_campaign::campaign::contract::{
    execute_add_reward_token, execute_claim_reward, execute_reset_pool, execute_stake_nft,
    execute_unstake_nft, execute_unstake_nft_and_claim, execute_update_admin,
    execute_withdraw_reward, instantiate, query_nft_info, query_nfts, query_staker_info,
    query_total_pending_reward, query_version_contract,
};
use staking_campaign::campaign::msg::InstantiateMsg;
use staking_campaign::campaign::state::{
    AssetToken, CampaignInfo, CampaignStore, Config, LockupTerm, NftInfo, NftKey, NftStake,
    NftUnStake, RewardRate, StakerRewardAssetInfo, TermPool, TokenInfo,
};
use staking_campaign::error::{ContractError, Record, StdError, START_NOT_BEFORE_END};

const ADMIN: &str = "aura1000000000000000000000000000000000admin";
const USER_1: &str = "aura1000000000000000000000000000000000user1";
const USER_2: &str = "aura1000000000000000000000000000000000user2";

fn token() -> TokenInfo {
    TokenInfo::Token { contract_addr: "contract0".to_string() }
}

fn setup() -> InstantiateMsg {
    InstantiateMsg {
        admin: ADMIN.to_string(),
        owner: ADMIN.to_string(),
        campaign_name: "campaign".to_string(),
        campaign_image: "image".to_string(),
        campaign_description: "description".to_string(),
        limit_per_staker: 2,
        total_eligible: 0,
        reward_token_info: AssetToken { info: token(), amount: 0 },
        allowed_collection: "contract1".to_string(),
        lockup_term: vec![
            LockupTerm { value: 10, percent: 30 },
            LockupTerm { value: 30, percent: 70 },
        ],
        start_time: 20,
        end_time: 120,
    }
}

fn funded() -> CampaignStore {
    let mut store = instantiate(setup()).unwrap();
    store.campaign_info =
        execute_add_reward_token(store.campaign_info, &ADMIN.to_string(), 1_000_000, 0).unwrap();
    store
}

fn stake_request(token_ids: &[&str], lockup_term: u64) -> NftStake {
    NftStake { token_ids: token_ids.iter().map(|id| id.to_string()).collect(), lockup_term }
}

fn owned(count: usize, owner: &str) -> Vec<Option<String>> {
    vec![Some(owner.to_string()); count]
}

fn sample(timestamp: u64, rate: u64) -> RewardRate {
    RewardRate { timestamp, rate }
}

#[test]
fn a_campaign_starts_with_an_empty_ledger() {
    let store = instantiate(setup()).unwrap();
    assert_eq!(store.config, Config { admin: ADMIN.to_string() });
    assert_eq!(
        store.campaign_info,
        CampaignInfo {
            owner: ADMIN.to_string(),
            campaign_name: "campaign".to_string(),
            campaign_image: "image".to_string(),
            campaign_description: "description".to_string(),
            total_reward_claimed: 0,
            total_reward: 0,
            limit_per_staker: 2,
            total_eligible: 0,
            reward_token: AssetToken { info: token(), amount: 0 },
            allowed_collection: "contract1".to_string(),
            lockup_term: vec![
                LockupTerm { value: 10, percent: 30 },
                LockupTerm { value: 30, percent: 70 },
            ],
            reward_per_second: 0,
            start_time: 20,
            end_time: 120,
        }
    );
    assert_eq!(
        store.terms,
        vec![
            TermPool {
                lockup_term: 10,
                reward_rates: vec![],
                total_staking: 0,
                expiration_times: vec![],
                number_of_nfts: 0,
            },
            TermPool {
                lockup_term: 30,
                reward_rates: vec![],
                total_staking: 0,
                expiration_times: vec![],
                number_of_nfts: 0,
            },
        ]
    );
    assert_eq!(store.previous_total_reward, 0);
    assert_eq!(store.total_nfts, 0);
}

#[test]
fn a_campaign_cannot_pay_in_a_native_token() {
    let mut msg = setup();
    msg.reward_token_info.info = TokenInfo::NativeToken { denom: "uaura".to_string() };
    // the token is checked before anything else
    msg.start_time = 200;
    assert_eq!(instantiate(msg), Err(ContractError::InvalidToken {}));
}

#[test]
fn a_campaign_must_start_before_it_ends() {
    let mut msg = setup();
    msg.start_time = 120;
    assert_eq!(
        instantiate(msg),
        Err(ContractError::Std(StdError::GenericErr { msg: START_NOT_BEFORE_END }))
    );
    assert_eq!(START_NOT_BEFORE_END, "## Start time is greater than end time ##");
}

#[test]
fn a_campaign_runs_for_three_years_at_most() {
    let mut msg = setup();
    msg.end_time = msg.start_time + 94608000;
    assert!(instantiate(msg).is_ok());
    let mut msg = setup();
    msg.end_time = msg.start_time + 94608001;
    assert_eq!(instantiate(msg), Err(ContractError::LimitStartDate {}));
}

#[test]
fn the_texts_of_a_campaign_are_limited() {
    let mut msg = setup();
    msg.campaign_name = "n".repeat(100);
    msg.campaign_image = "i".repeat(500);
    msg.campaign_description = "d".repeat(500);
    assert!(instantiate(msg).is_ok());
    let mut msg = setup();
    msg.campaign_name = "n".repeat(101);
    assert_eq!(instantiate(msg), Err(ContractError::LimitCharacter { max: 100 }));
    let mut msg = setup();
    msg.campaign_image = "i".repeat(501);
    assert_eq!(instantiate(msg), Err(ContractError::LimitCharacter { max: 500 }));
    let mut msg = setup();
    msg.campaign_description = "d".repeat(501);
    assert_eq!(instantiate(msg), Err(ContractError::LimitCharacter { max: 500 }));
    // the limit counts bytes, not characters
    let mut msg = setup();
    msg.campaign_name = "é".repeat(51);
    assert_eq!(instantiate(msg), Err(ContractError::LimitCharacter { max: 100 }));
}

#[test]
fn the_shares_of_the_terms_must_add_up_to_one_hundred() {
    let mut msg = setup();
    msg.lockup_term = vec![LockupTerm { value: 10, percent: 30 }, LockupTerm { value: 30, percent: 69 }];
    assert_eq!(instantiate(msg), Err(ContractError::InvalidFunds {}));
    let mut msg = setup();
    msg.lockup_term = vec![];
    assert_eq!(instantiate(msg), Err(ContractError::InvalidFunds {}));
    let mut msg = setup();
    msg.lockup_term = vec![
        LockupTerm { value: 10, percent: u128::MAX },
        LockupTerm { value: 30, percent: 101 },
    ];
    assert_eq!(instantiate(msg), Err(ContractError::InvalidFunds {}));
    let mut msg = setup();
    msg.lockup_term = vec![LockupTerm { value: 10, percent: 100 }, LockupTerm { value: 30, percent: 0 }];
    assert!(instantiate(msg).is_ok());
}

#[test]
fn a_deposit_sets_the_emission() {
    let store = funded();
    assert_eq!(store.campaign_info.reward_token.amount, 1_000_000);
    assert_eq!(store.campaign_info.total_reward, 1_000_000);
    assert_eq!(store.campaign_info.reward_per_second, 10_000);
    // a second deposit before the start adds to the first
    let ledger =
        execute_add_reward_token(store.campaign_info, &ADMIN.to_string(), 500_050, 19).unwrap();
    assert_eq!(ledger.reward_token.amount, 1_500_050);
    assert_eq!(ledger.total_reward, 1_500_050);
    assert_eq!(ledger.reward_per_second, 15_000);
}

#[test]
fn a_deposit_saturates() {
    let mut store = instantiate(setup()).unwrap();
    store.campaign_info.reward_token.amount = u128::MAX - 1;
    store.campaign_info.total_reward = 7;
    let ledger = execute_add_reward_token(store.campaign_info, &ADMIN.to_string(), 5, 0).unwrap();
    assert_eq!(ledger.reward_token.amount, u128::MAX);
    assert_eq!(ledger.total_reward, 12);
    assert_eq!(ledger.reward_per_second, u128::MAX / 100);
}

#[test]
fn only_the_owner_deposits() {
    let store = instantiate(setup()).unwrap();
    assert_eq!(
        execute_add_reward_token(store.campaign_info, &USER_1.to_string(), 1, 0),
        Err(ContractError::Unauthorized {})
    );
}

#[test]
fn no_deposit_into_a_running_campaign() {
    let store = funded();
    assert_eq!(
        execute_add_reward_token(store.campaign_info.clone(), &ADMIN.to_string(), 1, 20),
        Err(ContractError::InvalidTimeToAddReward {})
    );
    assert!(execute_add_reward_token(store.campaign_info, &ADMIN.to_string(), 1, 19).is_ok());
    // a campaign without emission takes a deposit at any time
    let store = instantiate(setup()).unwrap();
    assert!(execute_add_reward_token(store.campaign_info, &ADMIN.to_string(), 1, 50).is_ok());
}

#[test]
fn staking_creates_positions() {
    let store = funded();
    let staked = execute_stake_nft(
        &store.campaign_info,
        store.total_nfts,
        None,
        store.terms,
        &stake_request(&["1", "2"], 10),
        &USER_1.to_string(),
        &owned(2, USER_1),
        25,
    )
    .unwrap();
    assert_eq!(
        staked.nfts,
        vec![
            NftInfo {
                key: 1,
                token_id: "1".to_string(),
                owner: USER_1.to_string(),
                pending_reward: 0,
                lockup_term: LockupTerm { value: 10, percent: 30 },
                is_end_reward: false,
                start_time: 25,
                time_calc: 25,
                end_time: 35,
            },
            NftInfo {
                key: 2,
                token_id: "2".to_string(),
                owner: USER_1.to_string(),
                pending_reward: 0,
                lockup_term: LockupTerm { value: 10, percent: 30 },
                is_end_reward: false,
                start_time: 25,
                time_calc: 25,
                end_time: 35,
            },
        ]
    );
    assert_eq!(
        staked.staker,
        StakerRewardAssetInfo {
            keys: vec![NftKey { key: 1, lockup_term: 10 }, NftKey { key: 2, lockup_term: 10 }],
            reward_debt: 0,
            reward_claimed: 0,
        }
    );
    assert_eq!(staked.total_nfts, 2);
    assert_eq!(
        staked.terms[0],
        TermPool {
            lockup_term: 10,
            reward_rates: vec![sample(25, 2)],
            total_staking: 2,
            expiration_times: vec![35, 35],
            number_of_nfts: 2,
        }
    );
    assert_eq!(staked.terms[1].reward_rates, vec![]);
}

#[test]
fn staking_before_the_start_is_rejected() {
    let store = funded();
    let stake_at = |time: u64| {
        execute_stake_nft(
            &store.campaign_info,
            0,
            None,
            store.terms.clone(),
            &stake_request(&["1"], 30),
            &USER_1.to_string(),
            &owned(1, USER_1),
            time,
        )
    };
    assert_eq!(stake_at(5), Err(ContractError::InvalidTimeToStakeNft {}));
    assert_eq!(stake_at(19), Err(ContractError::InvalidTimeToStakeNft {}));
    // from the start on the campaign takes positions
    let staked = stake_at(20).unwrap();
    assert_eq!(staked.nfts[0].start_time, 20);
    assert_eq!(staked.nfts[0].time_calc, 20);
    assert_eq!(staked.nfts[0].end_time, 50);
    assert_eq!(staked.nfts[0].lockup_term, LockupTerm { value: 30, percent: 70 });
    assert_eq!(staked.terms[1].reward_rates, vec![sample(20, 1)]);
    assert_eq!(staked.terms[0].reward_rates, vec![]);
    assert_eq!(staked.total_nfts, 1);
}

#[test]
fn staking_is_rejected() {
    let store = funded();
    let sender = USER_1.to_string();
    let stake = |campaign_info: &CampaignInfo,
                 total_nfts: u64,
                 staker: Option<StakerRewardAssetInfo>,
                 terms: Vec<TermPool>,
                 request: NftStake,
                 owners: Vec<Option<String>>,
                 time: u64| {
        execute_stake_nft(campaign_info, total_nfts, staker, terms, &request, &sender, &owners, time)
    };
    let empty = instantiate(setup()).unwrap();
    assert_eq!(
        stake(&empty.campaign_info, 0, None, empty.terms.clone(), stake_request(&["1"], 10), owned(1, USER_1), 25),
        Err(ContractError::EmptyReward {})
    );
    let mut limited = store.campaign_info.clone();
    limited.total_eligible = 3;
    assert_eq!(
        stake(&limited, 2, None, store.terms.clone(), stake_request(&["1", "2"], 10), owned(2, USER_1), 25),
        Err(ContractError::LimitPerCollection {})
    );
    assert!(stake(&limited, 1, None, store.terms.clone(), stake_request(&["1", "2"], 10), owned(2, USER_1), 25).is_ok());
    assert_eq!(
        stake(&limited, u64::MAX, None, store.terms.clone(), stake_request(&["1"], 10), owned(1, USER_1), 25),
        Err(ContractError::LimitPerCollection {})
    );
    assert_eq!(
        stake(&store.campaign_info, 0, None, store.terms.clone(), stake_request(&["1"], 20), owned(1, USER_1), 25),
        Err(ContractError::InvalidLockupTerm {})
    );
    assert_eq!(
        stake(&store.campaign_info, 0, None, store.terms.clone(), stake_request(&["1"], 10), owned(1, USER_1), 120),
        Err(ContractError::InvalidTimeToStakeNft {})
    );
    assert_eq!(
        stake(&store.campaign_info, 0, None, store.terms.clone(), stake_request(&["1"], 10), owned(1, USER_1), 19),
        Err(ContractError::InvalidTimeToStakeNft {})
    );
    // a term that the campaign does not have is found before the time is looked at
    assert_eq!(
        stake(&store.campaign_info, 0, None, store.terms.clone(), stake_request(&["1"], 20), owned(1, USER_1), 19),
        Err(ContractError::InvalidLockupTerm {})
    );
    assert!(stake(&store.campaign_info, 0, None, store.terms.clone(), stake_request(&["1"], 10), owned(1, USER_1), 119).is_ok());
    let holder = StakerRewardAssetInfo {
        keys: vec![NftKey { key: 1, lockup_term: 10 }],
        reward_debt: 0,
        reward_claimed: 0,
    };
    assert_eq!(
        stake(&store.campaign_info, 0, Some(holder.clone()), store.terms.clone(), stake_request(&["2", "3"], 10), owned(2, USER_1), 25),
        Err(ContractError::LimitPerStake {})
    );
    assert!(stake(&store.campaign_info, 0, Some(holder), store.terms.clone(), stake_request(&["2"], 10), owned(1, USER_1), 25).is_ok());
    assert_eq!(
        stake(&store.campaign_info, 0, None, vec![store.terms[1].clone()], stake_request(&["1"], 10), owned(1, USER_1), 25),
        Err(ContractError::Std(StdError::NotFound { kind: Record::Term }))
    );
    assert_eq!(
        stake(
            &store.campaign_info,
            0,
            None,
            store.terms.clone(),
            stake_request(&["1", "2"], 10),
            vec![Some(USER_1.to_string()), Some(USER_2.to_string())],
            25
        ),
        Err(ContractError::NotOwner { token_id: "2".to_string() })
    );
    assert_eq!(
        stake(&store.campaign_info, 0, None, store.terms.clone(), stake_request(&["1"], 10), vec![None], 25),
        Err(ContractError::NotOwner { token_id: "1".to_string() })
    );
    assert_eq!(
        stake(&store.campaign_info, 0, None, store.terms.clone(), stake_request(&["1"], 10), vec![], 25),
        Err(ContractError::NotOwner { token_id: "1".to_string() })
    );
}

#[test]
fn no_limit_per_staker_where_the_limit_is_zero() {
    let mut store = funded();
    store.campaign_info.limit_per_staker = 0;
    let staked = execute_stake_nft(
        &store.campaign_info,
        0,
        None,
        store.terms,
        &stake_request(&["1", "2", "3", "4"], 10),
        &USER_1.to_string(),
        &owned(4, USER_1),
        25,
    )
    .unwrap();
    assert_eq!(staked.nfts.len(), 4);
    assert_eq!(staked.total_nfts, 4);
    assert_eq!(staked.terms[0].number_of_nfts, 4);
}

/// The course of a campaign: two positions of one staker in one term, a
/// claim, an unstaking, and the withdrawal of what is left.
#[test]
fn the_course_of_a_campaign() {
    let user = USER_1.to_string();
    let store = funded();
    let campaign_info = store.campaign_info;

    // the first token at 20, the second at 21
    let first = execute_stake_nft(
        &campaign_info, 0, None, store.terms, &stake_request(&["1"], 10), &user, &owned(1, USER_1), 20,
    )
    .unwrap();
    let second = execute_stake_nft(
        &campaign_info,
        first.total_nfts,
        Some(first.staker),
        first.terms,
        &stake_request(&["2"], 10),
        &user,
        &owned(1, USER_1),
        21,
    )
    .unwrap();
    let nfts = vec![first.nfts[0].clone(), second.nfts[0].clone()];
    assert_eq!(second.total_nfts, 2);
    assert_eq!(second.terms[0].reward_rates, vec![sample(20, 1), sample(21, 2)]);

    // at 27 the first has earned 3000 alone and 9000 shared, the second 9000
    let seen = query_nft_info(&campaign_info, nfts[0].clone(), &second.terms, 27).unwrap();
    assert_eq!(seen.pending_reward, 12_000);
    let seen = query_nft_info(&campaign_info, nfts[1].clone(), &second.terms, 27).unwrap();
    assert_eq!(seen.pending_reward, 9_000);
    assert_eq!(query_total_pending_reward(&campaign_info, &second.terms, 0, 27), Ok(21_000));

    // the staker claims all of it
    let claimed = execute_claim_reward(
        campaign_info,
        Some(second.staker),
        nfts,
        second.terms,
        21_000,
        27,
    )
    .unwrap();
    assert_eq!(claimed.nfts[0].pending_reward, 0);
    assert_eq!(claimed.nfts[1].pending_reward, 0);
    assert_eq!(claimed.nfts[0].time_calc, 27);
    assert_eq!(claimed.staker.reward_debt, 0);
    assert_eq!(claimed.staker.reward_claimed, 21_000);
    assert_eq!(claimed.campaign_info.reward_token.amount, 979_000);
    assert_eq!(claimed.campaign_info.total_reward_claimed, 21_000);
    assert_eq!(claimed.campaign_info.total_reward, 1_000_000);
    assert_eq!(
        claimed.terms[0].reward_rates,
        vec![sample(20, 1), sample(21, 2), sample(27, 2)]
    );

    // at 30 the first position can leave; it has earned 4500 more
    let campaign_info = claimed.campaign_info;
    let left = execute_unstake_nft(
        &campaign_info,
        Some(claimed.nfts[0].clone()),
        Some(claimed.staker),
        &claimed.terms,
        &user,
        NftKey { key: 1, lockup_term: 10 },
        30,
    )
    .unwrap();
    assert_eq!(left.nft.pending_reward, 4_500);
    assert!(left.nft.is_end_reward);
    assert_eq!(left.staker.keys, vec![NftKey { key: 2, lockup_term: 10 }]);
    assert_eq!(left.staker.reward_debt, 4_500);
    assert_eq!(left.staker.reward_claimed, 21_000);
    let seen = query_nft_info(&campaign_info, claimed.nfts[1].clone(), &claimed.terms, 30).unwrap();
    assert_eq!(seen.pending_reward, 4_500);
    assert_eq!(query_total_pending_reward(&campaign_info, &claimed.terms, 0, 30), Ok(9_000));

    // at the end the second has earned 3000 more, alone for its last second
    let seen = query_nft_info(&campaign_info, claimed.nfts[1].clone(), &claimed.terms, 200).unwrap();
    assert_eq!(seen.pending_reward, 7_500);
    assert!(seen.is_end_reward);
    assert_eq!(seen.time_calc, 31);
    assert_eq!(query_total_pending_reward(&campaign_info, &claimed.terms, 0, 200), Ok(12_000));

    // the owner withdraws what the campaign does not owe
    let (ledger, released) =
        execute_withdraw_reward(campaign_info, &claimed.terms, 0, &ADMIN.to_string(), 120).unwrap();
    assert_eq!(released, 967_000);
    assert_eq!(ledger.reward_token.amount, 12_000);
    assert_eq!(ledger.total_reward_claimed, 21_000);
}

fn one_position_store() -> (CampaignInfo, StakerRewardAssetInfo, Vec<NftInfo>, Vec<TermPool>) {
    let store = funded();
    let staked = execute_stake_nft(
        &store.campaign_info,
        0,
        None,
        store.terms,
        &stake_request(&["1"], 10),
        &USER_1.to_string(),
        &owned(1, USER_1),
        20,
    )
    .unwrap();
    (store.campaign_info, staked.staker, staked.nfts, staked.terms)
}

#[test]
fn a_claim_of_more_than_is_owed_is_rejected() {
    let (campaign_info, mut staker, nfts, terms) = one_position_store();
    staker.reward_debt = 500;
    // six seconds alone earn 18000
    assert_eq!(
        execute_claim_reward(campaign_info.clone(), Some(staker.clone()), nfts.clone(), terms.clone(), 18_501, 26),
        Err(ContractError::InsufficientBalance {})
    );
    let claimed =
        execute_claim_reward(campaign_info, Some(staker), nfts, terms, 18_500, 26).unwrap();
    assert_eq!(claimed.staker.reward_debt, 0);
    assert_eq!(claimed.staker.reward_claimed, 18_500);
    assert_eq!(claimed.campaign_info.reward_token.amount, 1_000_000 - 18_500);
}

#[test]
fn a_claim_of_less_than_is_owed_leaves_a_debt() {
    let (campaign_info, mut staker, nfts, terms) = one_position_store();
    staker.reward_debt = 500;
    staker.reward_claimed = 40;
    let claimed = execute_claim_reward(campaign_info, Some(staker), nfts, terms, 8_000, 26).unwrap();
    assert_eq!(claimed.staker.reward_debt, 10_500);
    assert_eq!(claimed.staker.reward_claimed, 8_040);
    assert_eq!(claimed.nfts[0].pending_reward, 0);
    assert_eq!(claimed.nfts[0].time_calc, 26);
    assert_eq!(claimed.campaign_info.total_reward_claimed, 8_000);
    assert_eq!(claimed.campaign_info.reward_token.amount, 992_000);
    assert_eq!(claimed.terms[0].reward_rates, vec![sample(20, 1), sample(26, 1)]);
}

#[test]
fn a_claim_needs_an_account_and_its_records() {
    let (campaign_info, staker, nfts, terms) = one_position_store();
    assert_eq!(
        execute_claim_reward(campaign_info.clone(), None, nfts.clone(), terms.clone(), 0, 26),
        Err(ContractError::InvalidClaim {})
    );
    assert_eq!(
        execute_claim_reward(campaign_info.clone(), Some(staker.clone()), vec![], terms.clone(), 0, 26),
        Err(ContractError::Std(StdError::NotFound { kind: Record::Nft }))
    );
    assert_eq!(
        execute_claim_reward(campaign_info, Some(staker), nfts, vec![terms[1].clone()], 0, 26),
        Err(ContractError::Std(StdError::NotFound { kind: Record::Term }))
    );
}

#[test]
fn a_claim_in_a_native_token_is_rejected() {
    let (mut campaign_info, staker, nfts, terms) = one_position_store();
    campaign_info.reward_token.info = TokenInfo::NativeToken { denom: "uaura".to_string() };
    assert_eq!(
        execute_claim_reward(campaign_info.clone(), Some(staker.clone()), nfts.clone(), terms.clone(), 100, 26),
        Err(ContractError::InvalidToken {})
    );
    assert_eq!(
        execute_claim_reward(campaign_info.clone(), Some(staker.clone()), nfts.clone(), terms.clone(), 0, 26),
        Err(ContractError::InvalidToken {})
    );
    // a claim of too much is rejected for that
    assert_eq!(
        execute_claim_reward(campaign_info, Some(staker), nfts, terms, 18_001, 26),
        Err(ContractError::InsufficientBalance {})
    );
}

#[test]
fn unstaking_with_payment_in_a_native_token_is_rejected() {
    let (mut campaign_info, staker, nfts, terms) = one_position_store();
    campaign_info.reward_token.info = TokenInfo::NativeToken { denom: "uaura".to_string() };
    let keys = vec![NftKey { key: 1, lockup_term: 10 }];
    assert_eq!(
        execute_unstake_nft_and_claim(campaign_info.clone(), Some(staker.clone()), nfts.clone(), &terms, &USER_1.to_string(), &keys, 40),
        Err(ContractError::InvalidToken {})
    );
    // a position that cannot leave yet is rejected for that
    assert_eq!(
        execute_unstake_nft_and_claim(campaign_info, Some(staker), nfts, &terms, &USER_1.to_string(), &keys, 29),
        Err(ContractError::InvalidTimeToUnStake {})
    );
}

#[test]
fn a_term_must_last_some_time() {
    let mut msg = setup();
    msg.lockup_term[0].value = 0;
    assert_eq!(instantiate(msg), Err(ContractError::InvalidLockupTerm {}));
    // the shares are looked at first
    let mut msg = setup();
    msg.lockup_term[0].value = 0;
    msg.lockup_term[0].percent = 31;
    assert_eq!(instantiate(msg), Err(ContractError::InvalidFunds {}));
    let mut msg = setup();
    msg.lockup_term[1].value = 1;
    assert!(instantiate(msg).is_ok());
}

#[test]
fn the_balance_is_covered_by_the_deposits() {
    let store = funded();
    assert_eq!(store.campaign_info.reward_token.amount, store.campaign_info.total_reward);
    let staked = execute_stake_nft(
        &store.campaign_info,
        0,
        None,
        store.terms,
        &stake_request(&["1"], 10),
        &USER_1.to_string(),
        &owned(1, USER_1),
        20,
    )
    .unwrap();
    let claimed = execute_claim_reward(
        store.campaign_info,
        Some(staked.staker),
        staked.nfts,
        staked.terms,
        10_000,
        26,
    )
    .unwrap();
    assert_eq!(claimed.campaign_info.total_reward, 1_000_000);
    assert_eq!(claimed.campaign_info.reward_token.amount, 990_000);
    // the position is owed 30000 in all, of which 10000 were claimed
    let (ledger, released) = execute_withdraw_reward(
        claimed.campaign_info,
        &claimed.terms,
        0,
        &ADMIN.to_string(),
        120,
    )
    .unwrap();
    assert_eq!(released, 970_000);
    assert!(released <= ledger.total_reward - 20_000);
    assert_eq!(ledger.reward_token.amount, 20_000);
    assert_eq!(ledger.total_reward, 1_000_000);
}

#[test]
fn unstaking_waits_for_the_end_of_the_lock() {
    let (campaign_info, staker, nfts, terms) = one_position_store();
    let key = NftKey { key: 1, lockup_term: 10 };
    let user = USER_1.to_string();
    assert_eq!(
        execute_unstake_nft(&campaign_info, Some(nfts[0].clone()), Some(staker.clone()), &terms, &user, key, 29),
        Err(ContractError::InvalidTimeToUnStake {})
    );
    let left =
        execute_unstake_nft(&campaign_info, Some(nfts[0].clone()), Some(staker), &terms, &user, key, 30)
            .unwrap();
    assert_eq!(left.staker.keys, vec![]);
    assert_eq!(left.staker.reward_debt, 30_000);
    assert_eq!(left.nft.pending_reward, 30_000);
    assert_eq!(left.nft.time_calc, 30);
    assert!(left.nft.is_end_reward);
    assert_eq!(left.nft.token_id, "1");
}

#[test]
fn unstaking_is_open_once_the_campaign_has_ended() {
    let store = funded();
    let user = USER_1.to_string();
    let staked = execute_stake_nft(
        &store.campaign_info, 0, None, store.terms, &stake_request(&["1"], 30), &user, &owned(1, USER_1), 100,
    )
    .unwrap();
    let key = NftKey { key: 1, lockup_term: 30 };
    assert_eq!(
        execute_unstake_nft(&store.campaign_info, Some(staked.nfts[0].clone()), Some(staked.staker.clone()), &staked.terms, &user, key, 119),
        Err(ContractError::InvalidTimeToUnStake {})
    );
    let left = execute_unstake_nft(
        &store.campaign_info, Some(staked.nfts[0].clone()), Some(staked.staker), &staked.terms, &user, key, 125,
    )
    .unwrap();
    assert_eq!(left.nft.time_calc, 120);
    assert_eq!(left.nft.pending_reward, 20 * 10_000 * 70 / 100);
}

#[test]
fn unstaking_is_rejected() {
    let (campaign_info, staker, nfts, terms) = one_position_store();
    let key = NftKey { key: 1, lockup_term: 10 };
    assert_eq!(
        execute_unstake_nft(&campaign_info, None, Some(staker.clone()), &terms, &USER_1.to_string(), key, 30),
        Err(ContractError::EmptyNft { key: 1 })
    );
    assert_eq!(
        execute_unstake_nft(&campaign_info, Some(nfts[0].clone()), Some(staker.clone()), &terms, &USER_2.to_string(), key, 30),
        Err(ContractError::NotOwner { token_id: "1".to_string() })
    );
    assert_eq!(
        execute_unstake_nft(&campaign_info, Some(nfts[0].clone()), Some(staker), &vec![], &USER_1.to_string(), key, 30),
        Err(ContractError::Std(StdError::NotFound { kind: Record::Term }))
    );
    assert_eq!(
        execute_unstake_nft(&campaign_info, Some(nfts[0].clone()), None, &terms, &USER_1.to_string(), key, 30),
        Err(ContractError::Std(StdError::NotFound { kind: Record::Staker }))
    );
}

#[test]
fn unstaking_with_payment() {
    let store = funded();
    let user = USER_1.to_string();
    let staked = execute_stake_nft(
        &store.campaign_info, 0, None, store.terms, &stake_request(&["1", "2"], 10), &user, &owned(2, USER_1), 20,
    )
    .unwrap();
    let keys = vec![NftKey { key: 2, lockup_term: 10 }, NftKey { key: 1, lockup_term: 10 }];
    let mut staker = staked.staker;
    staker.reward_debt = 77;
    let done = execute_unstake_nft_and_claim(
        store.campaign_info.clone(),
        Some(staker.clone()),
        staked.nfts.clone(),
        &staked.terms,
        &user,
        &keys,
        40,
    )
    .unwrap();
    assert_eq!(done.reward, 30_000);
    assert_eq!(done.left.len(), 2);
    assert_eq!(done.left[0].key, 2);
    assert_eq!(done.left[0].pending_reward, 15_000);
    assert_eq!(done.left[1].key, 1);
    assert_eq!(done.nfts, vec![]);
    assert_eq!(done.staker.keys, vec![]);
    assert_eq!(done.staker.reward_debt, 77);
    assert_eq!(done.staker.reward_claimed, 30_000);
    assert_eq!(done.campaign_info.reward_token.amount, 970_000);
    assert_eq!(done.campaign_info.total_reward_claimed, 30_000);

    // a position that is on record twice leaves once
    let mut doubled = staked.nfts.clone();
    doubled.push(staked.nfts[0].clone());
    let once = execute_unstake_nft_and_claim(
        store.campaign_info.clone(),
        Some(staker.clone()),
        doubled,
        &staked.terms,
        &user,
        &vec![NftKey { key: 1, lockup_term: 10 }],
        40,
    )
    .unwrap();
    assert_eq!(once.reward, 15_000);
    assert_eq!(once.nfts, vec![staked.nfts[1].clone()]);

    // a key that is named twice names no position the second time
    let twice = vec![NftKey { key: 1, lockup_term: 10 }, NftKey { key: 1, lockup_term: 10 }];
    assert_eq!(
        execute_unstake_nft_and_claim(store.campaign_info.clone(), Some(staker.clone()), staked.nfts.clone(), &staked.terms, &user, &twice, 40),
        Err(ContractError::EmptyNft { key: 1 })
    );
    assert_eq!(
        execute_unstake_nft_and_claim(store.campaign_info.clone(), Some(staker.clone()), staked.nfts.clone(), &staked.terms, &user, &keys, 29),
        Err(ContractError::InvalidTimeToUnStake {})
    );
    assert_eq!(
        execute_unstake_nft_and_claim(store.campaign_info.clone(), Some(staker.clone()), staked.nfts.clone(), &staked.terms, &USER_2.to_string(), &keys, 40),
        Err(ContractError::NotOwner { token_id: "2".to_string() })
    );
    assert_eq!(
        execute_unstake_nft_and_claim(store.campaign_info.clone(), None, staked.nfts.clone(), &staked.terms, &user, &keys, 40),
        Err(ContractError::Std(StdError::NotFound { kind: Record::Staker }))
    );
    assert_eq!(
        execute_unstake_nft_and_claim(store.campaign_info, Some(staker), staked.nfts, &vec![], &user, &keys, 40),
        Err(ContractError::Std(StdError::NotFound { kind: Record::Term }))
    );
}

#[test]
fn withdrawing_is_rejected() {
    let (campaign_info, _, _, terms) = one_position_store();
    assert_eq!(
        execute_withdraw_reward(campaign_info.clone(), &terms, 0, &USER_1.to_string(), 120),
        Err(ContractError::Unauthorized {})
    );
    assert_eq!(
        execute_withdraw_reward(campaign_info.clone(), &terms, 0, &ADMIN.to_string(), 119),
        Err(ContractError::InvalidTimeToWithdrawReward {})
    );
    assert_eq!(
        execute_withdraw_reward(campaign_info, &vec![terms[0].clone()], 0, &ADMIN.to_string(), 120),
        Err(ContractError::Std(StdError::NotFound { kind: Record::Term }))
    );
}

#[test]
fn withdrawing_keeps_what_is_owed() {
    let (campaign_info, _, _, terms) = one_position_store();
    // the position is owed 10 s * 10000 * 30 / 100, and 5000 were compacted before
    let (ledger, released) =
        execute_withdraw_reward(campaign_info.clone(), &terms, 5_000, &ADMIN.to_string(), 500).unwrap();
    assert_eq!(released, 1_000_000 - 35_000);
    assert_eq!(ledger.reward_token.amount, 35_000);
    // where more is owed than the balance holds, nothing is released
    let mut poor = campaign_info;
    poor.reward_token.amount = 20_000;
    let (ledger, released) =
        execute_withdraw_reward(poor, &terms, 5_000, &ADMIN.to_string(), 500).unwrap();
    assert_eq!(released, 0);
    assert_eq!(ledger.reward_token.amount, 20_000);
}

#[test]
fn compaction_cuts_the_curves_down() {
    let user = USER_1.to_string();
    let store = funded();
    let first = execute_stake_nft(
        &store.campaign_info, 0, None, store.terms, &stake_request(&["1"], 10), &user, &owned(1, USER_1), 20,
    )
    .unwrap();
    let second = execute_stake_nft(
        &store.campaign_info,
        first.total_nfts,
        Some(first.staker),
        first.terms,
        &stake_request(&["2"], 10),
        &user,
        &owned(1, USER_1),
        21,
    )
    .unwrap();
    let nfts = vec![first.nfts[0].clone(), second.nfts[0].clone()];
    let config = Config { admin: ADMIN.to_string() };
    assert_eq!(
        execute_reset_pool(&config, &store.campaign_info, second.terms.clone(), nfts.clone(), 0, &user, 27),
        Err(ContractError::Unauthorized {})
    );
    assert_eq!(
        execute_reset_pool(&config, &store.campaign_info, vec![], nfts.clone(), 0, &ADMIN.to_string(), 27),
        Err(ContractError::Std(StdError::NotFound { kind: Record::Term }))
    );
    let reset = execute_reset_pool(
        &config, &store.campaign_info, second.terms.clone(), nfts.clone(), 100, &ADMIN.to_string(), 27,
    )
    .unwrap();
    assert_eq!(reset.nfts[0].pending_reward, 12_000);
    assert_eq!(reset.nfts[1].pending_reward, 9_000);
    assert_eq!(reset.nfts[0].time_calc, 27);
    assert_eq!(reset.previous_total_reward, 100 + 3_000 + 18_000);
    assert_eq!(reset.terms[0].reward_rates, vec![sample(27, 2)]);
    assert_eq!(reset.terms[0].total_staking, 2);
    assert_eq!(reset.terms[0].expiration_times, vec![30, 31]);
    assert_eq!(reset.terms[0].number_of_nfts, 2);
    assert_eq!(reset.terms[1].reward_rates, vec![]);

    // the positions go on accruing on the compacted curve
    let seen = query_nft_info(&store.campaign_info, reset.nfts[1].clone(), &reset.terms, 31).unwrap();
    assert_eq!(seen.pending_reward, 9_000 + 4_500 + 3_000);
    assert_eq!(
        query_total_pending_reward(&store.campaign_info, &reset.terms, reset.previous_total_reward, 31),
        Ok(21_100 + 9_000 + 3_000)
    );
    // and the compaction has not changed what they earn
    let seen = query_nft_info(&store.campaign_info, nfts[1].clone(), &second.terms, 31).unwrap();
    assert_eq!(seen.pending_reward, 9_000 + 4_500 + 3_000);
}

#[test]
fn the_administrator_hands_the_role_on() {
    let config = Config { admin: ADMIN.to_string() };
    assert_eq!(
        execute_update_admin(config.clone(), &USER_1.to_string(), USER_1.to_string()),
        Err(ContractError::Unauthorized {})
    );
    assert_eq!(
        execute_update_admin(config, &ADMIN.to_string(), USER_1.to_string()),
        Ok(Config { admin: USER_1.to_string() })
    );
}

#[test]
fn a_page_of_positions() {
    let mut store = funded();
    store.campaign_info.limit_per_staker = 0;
    let staked = execute_stake_nft(
        &store.campaign_info,
        0,
        None,
        store.terms,
        &stake_request(&["a", "b", "c", "d", "e"], 10),
        &USER_1.to_string(),
        &owned(5, USER_1),
        20,
    )
    .unwrap();
    let page = query_nfts(&store.campaign_info, &staked.nfts, &staked.terms, 10, None, None, 25).unwrap();
    assert_eq!(page.len(), 5);
    assert_eq!(page[0].pending_reward, 5 * 10_000 * 30 / 5 / 100);
    assert_eq!(page[4].time_calc, 25);
    let page =
        query_nfts(&store.campaign_info, &staked.nfts, &staked.terms, 10, Some(1), Some(2), 25).unwrap();
    assert_eq!(page.iter().map(|nft| nft.key).collect::<Vec<_>>(), vec![2, 3]);
    let page =
        query_nfts(&store.campaign_info, &staked.nfts, &staked.terms, 10, Some(4), Some(2), 25).unwrap();
    assert_eq!(page.iter().map(|nft| nft.key).collect::<Vec<_>>(), vec![5]);
    let page =
        query_nfts(&store.campaign_info, &staked.nfts, &staked.terms, 10, Some(5), None, 25).unwrap();
    assert_eq!(page, vec![]);
    let page =
        query_nfts(&store.campaign_info, &staked.nfts, &staked.terms, 10, None, Some(0), 25).unwrap();
    assert_eq!(page, vec![]);
    let page =
        query_nfts(&store.campaign_info, &staked.nfts, &staked.terms, 30, None, None, 25).unwrap();
    assert_eq!(page, vec![]);
    assert_eq!(
        query_nfts(&store.campaign_info, &staked.nfts, &staked.terms, 20, None, None, 25),
        Err(ContractError::Std(StdError::NotFound { kind: Record::Term }))
    );
    // the records stay as they are
    assert_eq!(staked.nfts[0].pending_reward, 0);
}

#[test]
fn a_page_holds_thirty_positions_where_no_limit_is_given() {
    let mut store = funded();
    store.campaign_info.limit_per_staker = 0;
    let ids: Vec<String> = (0..40).map(|i| format!("{}", i)).collect();
    let staked = execute_stake_nft(
        &store.campaign_info,
        0,
        None,
        store.terms,
        &NftStake { token_ids: ids, lockup_term: 10 },
        &USER_1.to_string(),
        &owned(40, USER_1),
        20,
    )
    .unwrap();
    let page = query_nfts(&store.campaign_info, &staked.nfts, &staked.terms, 10, None, None, 25).unwrap();
    assert_eq!(page.len(), 30);
    assert_eq!(page[29].key, 30);
}

#[test]
fn a_staker_without_account_holds_nothing() {
    assert_eq!(
        query_staker_info(None),
        StakerRewardAssetInfo { keys: vec![], reward_debt: 0, reward_claimed: 0 }
    );
    let account = StakerRewardAssetInfo {
        keys: vec![NftKey { key: 3, lockup_term: 10 }],
        reward_debt: 5,
        reward_claimed: 6,
    };
    assert_eq!(query_staker_info(Some(account.clone())), account);
}

#[test]
fn the_version_of_the_rules() {
    assert_eq!(query_version_contract(), Ok("version_2".to_string()));
}

#[test]
fn tokens_are_shown_by_their_name() {
    assert_eq!(token().to_string(), "contract0");
    assert_eq!(TokenInfo::NativeToken { denom: "uaura".to_string() }.to_string(), "uaura");
}

#[test]
fn requests_are_plain_records() {
    let request = NftUnStake { key: 1, token_id: "1".to_string(), lockup_term: 10 };
    assert_eq!(request.clone(), request);
    let request = NftStake { token_ids: vec!["1".to_string()], lockup_term: 10 };
    assert_eq!(request.clone(), request);
}

#[test]
fn what_the_positions_earn_is_covered_by_the_deposit() {
    let mut store = funded();
    store.campaign_info.limit_per_staker = 0;
    let user = USER_1.to_string();
    let mut terms = store.terms;
    let mut nfts: Vec<NftInfo> = vec![];
    let mut staker = None;
    let mut total_nfts = 0;
    let stakes = [(20u64, 10u64), (22, 30), (23, 10), (29, 10), (30, 30), (31, 10), (55, 10), (100, 30), (115, 10)];
    for (i, (time, term)) in stakes.iter().enumerate() {
        let id = format!("{}", i);
        let staked = execute_stake_nft(
            &store.campaign_info,
            total_nfts,
            staker,
            terms,
            &stake_request(&[&id], *term),
            &user,
            &owned(1, USER_1),
            *time,
        )
        .unwrap();
        nfts.extend(staked.nfts);
        terms = staked.terms;
        staker = Some(staked.staker);
        total_nfts = staked.total_nfts;
    }
    let claimed =
        execute_claim_reward(store.campaign_info, staker, nfts, terms, 0, 500).unwrap();
    assert!(claimed.nfts.iter().all(|nft| nft.is_end_reward));
    assert!(claimed.staker.reward_debt <= 1_000_000);
    let owed = query_total_pending_reward(&claimed.campaign_info, &claimed.terms, 0, 500).unwrap();
    assert!(claimed.staker.reward_debt <= owed);
    assert!(owed <= 1_000_000);
}

#[test]
fn the_end_of_a_lock_is_no_later_than_the_largest_time() {
    let mut store = funded();
    store.campaign_info.lockup_term[1].value = u64::MAX - 10;
    store.terms[1].lockup_term = u64::MAX - 10;
    let staked = execute_stake_nft(
        &store.campaign_info,
        0,
        None,
        store.terms,
        &stake_request(&["1"], u64::MAX - 10),
        &USER_1.to_string(),
        &owned(1, USER_1),
        25,
    )
    .unwrap();
    assert_eq!(staked.nfts[0].end_time, u64::MAX);
    assert_eq!(staked.terms[1].expiration_times, vec![u64::MAX]);
}

#[test]
fn a_campaign_without_duration_emits_its_balance() {
    let mut store = instantiate(setup()).unwrap();
    store.campaign_info.start_time = 120;
    let ledger = execute_add_reward_token(store.campaign_info.clone(), &ADMIN.to_string(), 700, 0).unwrap();
    assert_eq!(ledger.reward_per_second, 700);
    store.campaign_info.start_time = 130;
    let ledger = execute_add_reward_token(store.campaign_info, &ADMIN.to_string(), 700, 0).unwrap();
    assert_eq!(ledger.reward_per_second, 700);
}
