use staking_campaign::error::ContractError;
use staking_campaign::reward::contract::{
    execute_add_reward_token, execute_set_watch_list, execute_transfer_reward, instantiate,
};
use staking_campaign::reward::msg::InstantiateMsg;
use staking_campaign::reward::state::{
    AssetToken, Payment, RewardInfo, StakerAccount, StakerRewardAssetInfo, TokenInfo,
    WatchListReward,
};

const MOCK_1000_TOKEN_AMOUNT: u128 = 1_000_000;
const ADMIN: &str = "aura1000000000000000000000000000000000admin";
const USER_1: &str = "aura1000000000000000000000000000000000user1";
const USER_2: &str = "aura1000000000000000000000000000000000user2";

fn token_info() -> TokenInfo {
    TokenInfo::Token { contract_addr: "contract0".to_string() }
}

fn setup() -> InstantiateMsg {
    InstantiateMsg {
        owner: ADMIN.to_string(),
        reward_token_info: AssetToken { info: token_info(), amount: 0 },
    }
}

fn account(address: &str, reward_debt: u128, reward_claimed: u128) -> StakerAccount {
    StakerAccount {
        address: address.to_string(),
        info: StakerRewardAssetInfo { reward_debt, reward_claimed },
    }
}

fn entry(address: &str, reward_debt: u128, reward_claimed: u128) -> WatchListReward {
    WatchListReward { address: address.to_string(), reward_debt, reward_claimed }
}

#[test]
fn proper_operation() {
    let admin = ADMIN.to_string();
    let (reward_info, watch_list) = instantiate(setup()).unwrap();
    assert_eq!(
        reward_info,
        RewardInfo {
            owner: ADMIN.to_string(),
            reward_token: AssetToken { info: token_info(), amount: 0 },
            total_reward: 0,
        }
    );

    // add reward token
    let response = execute_add_reward_token(reward_info, &admin, MOCK_1000_TOKEN_AMOUNT);
    assert!(response.is_ok());
    let reward_info = response.unwrap();
    assert_eq!(MOCK_1000_TOKEN_AMOUNT, reward_info.reward_token.amount);

    // set watch list
    let response = execute_set_watch_list(
        &reward_info,
        watch_list,
        vec![],
        &admin,
        &vec![entry(USER_1, 1000, 0), entry(USER_2, 2000, 0)],
    );
    assert!(response.is_ok());
    let (watch_list, stakers) = response.unwrap();
    assert_eq!(watch_list, vec![USER_1.to_string(), USER_2.to_string()]);
    assert_eq!(stakers[0], account(USER_1, 1000, 0));
    assert_eq!(stakers[1], account(USER_2, 2000, 0));

    // transfer reward to the watch list
    let response = execute_transfer_reward(
        reward_info,
        stakers,
        &admin,
        &vec![USER_1.to_string(), USER_2.to_string()],
    );
    assert!(response.is_ok());
    let sent = response.unwrap();
    assert_eq!(sent.stakers[0], account(USER_1, 0, 1000));
    assert_eq!(sent.stakers[1], account(USER_2, 0, 2000));
    assert_eq!(
        sent.payments,
        vec![
            Payment { recipient: USER_1.to_string(), amount: 1000 },
            Payment { recipient: USER_2.to_string(), amount: 2000 },
        ]
    );
    assert_eq!(
        sent.reward_info,
        RewardInfo {
            owner: ADMIN.to_string(),
            reward_token: AssetToken { info: token_info(), amount: 997000 },
            total_reward: MOCK_1000_TOKEN_AMOUNT,
        }
    );
}

#[test]
fn a_ledger_cannot_pay_in_a_native_token() {
    let mut msg = setup();
    msg.reward_token_info.info = TokenInfo::NativeToken { denom: "uaura".to_string() };
    assert_eq!(instantiate(msg), Err(ContractError::InvalidToken {}));
}

#[test]
fn only_the_owner_of_the_ledger_acts() {
    let (reward_info, _) = instantiate(setup()).unwrap();
    let user = USER_1.to_string();
    assert_eq!(
        execute_add_reward_token(reward_info.clone(), &user, 5),
        Err(ContractError::Unauthorized {})
    );
    assert_eq!(
        execute_set_watch_list(&reward_info, vec![], vec![], &user, &vec![entry(USER_1, 1, 0)]),
        Err(ContractError::Unauthorized {})
    );
    assert_eq!(
        execute_transfer_reward(reward_info, vec![account(USER_1, 1, 0)], &user, &vec![user.clone()]),
        Err(ContractError::Unauthorized {})
    );
}

#[test]
fn deposits_into_the_ledger_saturate() {
    let (mut reward_info, _) = instantiate(setup()).unwrap();
    reward_info.reward_token.amount = u128::MAX - 3;
    reward_info.total_reward = 10;
    let reward_info = execute_add_reward_token(reward_info, &ADMIN.to_string(), 5).unwrap();
    assert_eq!(reward_info.reward_token.amount, u128::MAX);
    assert_eq!(reward_info.total_reward, 15);
}

#[test]
fn an_entry_overwrites_the_account_of_its_staker() {
    let (reward_info, _) = instantiate(setup()).unwrap();
    let (watch_list, stakers) = execute_set_watch_list(
        &reward_info,
        vec![USER_2.to_string()],
        vec![account(USER_2, 7, 8), account(USER_1, 1, 2)],
        &ADMIN.to_string(),
        &vec![entry(USER_1, 10, 20), entry("other", 3, 4), entry(USER_1, 30, 40)],
    )
    .unwrap();
    assert_eq!(
        watch_list,
        vec![USER_2.to_string(), USER_1.to_string(), "other".to_string(), USER_1.to_string()]
    );
    assert_eq!(
        stakers,
        vec![account(USER_2, 7, 8), account(USER_1, 30, 40), account("other", 3, 4)]
    );
}

#[test]
fn a_transfer_needs_an_account_for_every_address() {
    let (reward_info, _) = instantiate(setup()).unwrap();
    assert_eq!(
        execute_transfer_reward(
            reward_info,
            vec![account(USER_1, 5, 0)],
            &ADMIN.to_string(),
            &vec![USER_1.to_string(), USER_2.to_string()],
        ),
        Err(ContractError::InvalidWatchList {})
    );
}

#[test]
fn a_staker_is_paid_once() {
    let (reward_info, _) = instantiate(setup()).unwrap();
    let reward_info = execute_add_reward_token(reward_info, &ADMIN.to_string(), 100).unwrap();
    let sent = execute_transfer_reward(
        reward_info,
        vec![account(USER_1, 60, 1), account(USER_2, 70, 2)],
        &ADMIN.to_string(),
        &vec![USER_1.to_string(), USER_1.to_string(), USER_2.to_string()],
    )
    .unwrap();
    assert_eq!(sent.stakers, vec![account(USER_1, 0, 61), account(USER_2, 0, 72)]);
    assert_eq!(
        sent.payments.iter().map(|payment| payment.amount).collect::<Vec<_>>(),
        vec![60, 0, 70]
    );
    // the balance does not go below zero
    assert_eq!(sent.reward_info.reward_token.amount, 0);
    assert_eq!(sent.reward_info.total_reward, 100);
}

#[test]
fn a_transfer_in_a_native_token_pays_nothing() {
    let (mut reward_info, _) = instantiate(setup()).unwrap();
    reward_info.reward_token.info = TokenInfo::NativeToken { denom: "uaura".to_string() };
    reward_info.reward_token.amount = 50;
    let sent = execute_transfer_reward(
        reward_info.clone(),
        vec![account(USER_1, 5, 0)],
        &ADMIN.to_string(),
        &vec![USER_1.to_string()],
    )
    .unwrap();
    assert_eq!(sent.reward_info, reward_info);
    assert_eq!(sent.stakers, vec![account(USER_1, 5, 0)]);
    assert_eq!(sent.payments, vec![]);
}
