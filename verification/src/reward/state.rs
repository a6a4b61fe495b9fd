//! Records of a reward ledger.

use vstd::prelude::*;

pub use crate::campaign::state::{AssetToken, TokenInfo};

verus! {

/// The ledger: who owns it, the balance that it holds, and what was
/// deposited so far.
#[derive(Clone, Debug, PartialEq, Eq)]
pub struct RewardInfo {
    pub owner: String,
    pub reward_token: AssetToken,
    pub total_reward: u128,
}

/// What a staker is owed and was paid.
#[derive(Clone, Copy, Debug, PartialEq, Eq, Structural)]
pub struct StakerRewardAssetInfo {
    /// What the staker is owed.
    pub reward_debt: u128,
    /// What the staker was paid so far.
    pub reward_claimed: u128,
}

/// An entry of a watch list: what the staker at `address` is owed and was
/// paid.
#[derive(Clone, Debug, PartialEq, Eq)]
pub struct WatchListReward {
    pub address: String,
    pub reward_debt: u128,
    pub reward_claimed: u128,
}

/// The account of the staker at `address`, as the ledger keeps it.
#[derive(Clone, Debug, PartialEq, Eq)]
pub struct StakerAccount {
    pub address: String,
    pub info: StakerRewardAssetInfo,
}

/// A `StakerAccount` as a plain value.
pub struct AccountState {
    pub address: Seq<char>,
    pub info: StakerRewardAssetInfo,
}

impl View for StakerAccount {
    type V = AccountState;

    open spec fn view(&self) -> AccountState {
        AccountState { address: self.address@, info: self.info }
    }
}

/// The accounts `accounts` as plain values.
pub open spec fn accounts_view(accounts: Seq<StakerAccount>) -> Seq<AccountState> {
    accounts.map_values(|account: StakerAccount| account@)
}

/// The addresses `addresses` as plain values.
pub open spec fn addresses_view(addresses: Seq<String>) -> Seq<Seq<char>> {
    addresses.map_values(|address: String| address@)
}

/// A payment of `amount` to the staker at `recipient`.
#[derive(Clone, Debug, PartialEq, Eq)]
pub struct Payment {
    pub recipient: String,
    pub amount: u128,
}

/// A `Payment` as a plain value.
pub struct PaymentState {
    pub recipient: Seq<char>,
    pub amount: u128,
}

impl View for Payment {
    type V = PaymentState;

    open spec fn view(&self) -> PaymentState {
        PaymentState { recipient: self.recipient@, amount: self.amount }
    }
}

/// The payments `payments` as plain values.
pub open spec fn payments_view(payments: Seq<Payment>) -> Seq<PaymentState> {
    payments.map_values(|payment: Payment| payment@)
}

} // verus!
