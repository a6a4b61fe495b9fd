//! The decisions of a reward ledger.
//!
//! Every operation takes the records that it reads and returns those that it
//! changed, or the reason for which it was rejected.

use vstd::prelude::*;
use crate::campaign::lookup::{first_where, lemma_first_where, lemma_first_where_is};
use crate::error::ContractError;
use crate::math::{saturate, saturating_add, saturating_sub};
use super::msg::InstantiateMsg;
use super::state::{
    accounts_view, AccountState, addresses_view, AssetToken, Payment, payments_view, PaymentState,
    RewardInfo, StakerAccount, StakerRewardAssetInfo, TokenInfo, WatchListReward,
};

verus! {

/// The ledger that `msg` sets up: an empty balance, nothing deposited.
pub open spec fn new_ledger(msg: InstantiateMsg) -> RewardInfo {
    RewardInfo {
        owner: msg.owner,
        reward_token: AssetToken { info: msg.reward_token_info.info, amount: 0 },
        total_reward: 0,
    }
}

/// Sets up a reward ledger. Rewards cannot be paid in a native token. The
/// ledger starts with an empty balance and an empty watch list.
pub fn instantiate(msg: InstantiateMsg) -> (made: Result<(RewardInfo, Vec<String>), ContractError>)
    ensures
        match made {
            Ok(store) => msg.reward_token_info.info is Token && store.0 == new_ledger(msg)
                && store.1@.len() == 0,
            Err(reason) => msg.reward_token_info.info is NativeToken && reason
                == (ContractError::InvalidToken {  }),
        },
{
    match &msg.reward_token_info.info {
        TokenInfo::Token { .. } => {},
        TokenInfo::NativeToken { .. } => {
            return Err(ContractError::InvalidToken {  });
        },
    }
    let reward = RewardInfo {
        owner: msg.owner,
        reward_token: AssetToken { info: msg.reward_token_info.info, amount: 0 },
        total_reward: 0,
    };
    Ok((reward, Vec::new()))
}

/// The ledger after `amount` was deposited. Where rewards are paid in a
/// token of a contract, the balance and the deposits grow by `amount`, cut
/// off at the largest amount. Else nothing changes.
pub open spec fn funded(reward_info: RewardInfo, amount: u128) -> RewardInfo {
    if reward_info.reward_token.info is Token {
        RewardInfo {
            reward_token: AssetToken {
                amount: saturate(reward_info.reward_token.amount + amount) as u128,
                ..reward_info.reward_token
            },
            total_reward: saturate(reward_info.total_reward + amount) as u128,
            ..reward_info
        }
    } else {
        reward_info
    }
}

/// Deposits `amount` of the reward token into the ledger. Only the owner
/// may deposit.
pub fn execute_add_reward_token(reward_info: RewardInfo, sender: &String, amount: u128) -> (added:
    Result<RewardInfo, ContractError>)
    ensures
        match added {
            Ok(ledger) => reward_info.owner@ == sender@ && ledger == funded(reward_info, amount),
            Err(reason) => reward_info.owner@ != sender@ && reason
                == (ContractError::Unauthorized {  }),
        },
{
    if reward_info.owner != *sender {
        return Err(ContractError::Unauthorized {  });
    }
    let mut reward_info = reward_info;
    match &reward_info.reward_token.info {
        TokenInfo::Token { .. } => {
            reward_info.reward_token.amount = saturating_add(
                reward_info.reward_token.amount,
                amount,
            );
            reward_info.total_reward = saturating_add(reward_info.total_reward, amount);
        },
        TokenInfo::NativeToken { .. } => {},
    }
    Ok(reward_info)
}

/// Whether an account is that of the staker at `address`.
pub open spec fn is_account_of(address: Seq<char>) -> spec_fn(AccountState) -> bool {
    |account: AccountState| account.address == address
}

/// The place of the first of `accounts` that is the account of the staker
/// at `address`.
fn find_account(accounts: &Vec<StakerAccount>, address: &String) -> (found: Option<usize>)
    ensures
        found matches Some(i) ==> first_where(accounts_view(accounts@), is_account_of(address@))
            == Some(i as int) && i < accounts.len(),
        found is None ==> first_where(accounts_view(accounts@), is_account_of(address@)) is None,
{
    let mut i: usize = 0;
    while i < accounts.len()
        invariant
            i <= accounts.len(),
            forall|j: int| 0 <= j < i ==> !(is_account_of(address@))(accounts_view(accounts@)[j]),
        decreases accounts.len() - i,
    {
        if accounts[i].address == *address {
            proof {
                lemma_first_where_is(accounts_view(accounts@), is_account_of(address@), i as int);
            }
            return Some(i);
        }
        i += 1;
    }
    proof {
        lemma_first_where(accounts_view(accounts@), is_account_of(address@));
    }
    None
}

/// The accounts after the account of the staker at `address` was set to
/// `info`: the account is overwritten in its place, or added at the end
/// where there was none.
pub open spec fn with_account(
    accounts: Seq<AccountState>,
    address: Seq<char>,
    info: StakerRewardAssetInfo,
) -> Seq<AccountState> {
    match first_where(accounts, is_account_of(address)) {
        Some(i) => accounts.update(i, AccountState { address, info }),
        None => accounts.push(AccountState { address, info }),
    }
}

/// The watch list and the accounts after the entries `entries` were put on
/// record, one after the other.
pub open spec fn watched(
    watch_list: Seq<Seq<char>>,
    accounts: Seq<AccountState>,
    entries: Seq<WatchListReward>,
) -> (Seq<Seq<char>>, Seq<AccountState>)
    decreases entries.len(),
{
    if entries.len() == 0 {
        (watch_list, accounts)
    } else {
        let entry = entries.first();
        watched(
            watch_list.push(entry.address@),
            with_account(
                accounts,
                entry.address@,
                StakerRewardAssetInfo {
                    reward_debt: entry.reward_debt,
                    reward_claimed: entry.reward_claimed,
                },
            ),
            entries.drop_first(),
        )
    }
}

/// Puts stakers on the watch list. Only the owner may do so.
///
/// Each entry sets what its staker is owed and was paid, and adds the
/// staker's address to the watch list. `stakers` holds the accounts on
/// record that the entries may name.
#[verifier::loop_isolation(false)]
pub fn execute_set_watch_list(
    reward_info: &RewardInfo,
    watch_list_info: Vec<String>,
    stakers: Vec<StakerAccount>,
    sender: &String,
    watch_list: &Vec<WatchListReward>,
) -> (set: Result<(Vec<String>, Vec<StakerAccount>), ContractError>)
    ensures
        match set {
            Ok(store) => reward_info.owner@ == sender@ && (
                addresses_view(store.0@),
                accounts_view(store.1@),
            ) == watched(
                addresses_view(watch_list_info@),
                accounts_view(stakers@),
                watch_list@,
            ),
            Err(reason) => reward_info.owner@ != sender@ && reason
                == (ContractError::Unauthorized {  }),
        },
{
    if reward_info.owner != *sender {
        return Err(ContractError::Unauthorized {  });
    }
    let ghost start = (addresses_view(watch_list_info@), accounts_view(stakers@));
    let mut watch_list_info = watch_list_info;
    let mut stakers = stakers;
    let mut i: usize = 0;
    proof {
        assert(watch_list@.skip(0) =~= watch_list@);
    }
    while i < watch_list.len()
        invariant
            i <= watch_list.len(),
            watched(start.0, start.1, watch_list@) == watched(
                addresses_view(watch_list_info@),
                accounts_view(stakers@),
                watch_list@.skip(i as int),
            ),
        decreases watch_list.len() - i,
    {
        let staker = &watch_list[i];
        proof {
            assert(watch_list@.skip(i as int).first() == *staker);
            assert(watch_list@.skip(i as int).drop_first() =~= watch_list@.skip(i + 1));
        }
        let info = StakerRewardAssetInfo {
            reward_debt: staker.reward_debt,
            reward_claimed: staker.reward_claimed,
        };
        let ghost addresses = addresses_view(watch_list_info@);
        let ghost accounts = accounts_view(stakers@);
        let account = StakerAccount { address: staker.address.clone(), info };
        match find_account(&stakers, &staker.address) {
            Some(place) => {
                stakers.set(place, account);
                proof {
                    assert(accounts_view(stakers@) =~= accounts.update(
                        place as int,
                        AccountState { address: staker.address@, info },
                    ));
                }
            },
            None => {
                stakers.push(account);
                proof {
                    assert(accounts_view(stakers@) =~= accounts.push(
                        AccountState { address: staker.address@, info },
                    ));
                }
            },
        }
        watch_list_info.push(staker.address.clone());
        proof {
            assert(addresses_view(watch_list_info@) =~= addresses.push(staker.address@));
        }
        i += 1;
    }
    Ok((watch_list_info, stakers))
}

/// The state of a transfer: the accounts, the payments made so far, and
/// their sum.
pub struct Paying {
    pub accounts: Seq<AccountState>,
    pub payments: Seq<PaymentState>,
    pub total: u128,
}

/// Pays the stakers at `addresses`, one after the other.
///
/// An address without account ends the transfer. Where rewards are paid,
/// each staker is paid what the staker is owed: it is added to what the
/// staker was paid, and the staker is owed nothing more.
pub open spec fn pay_each(state: Paying, addresses: Seq<Seq<char>>, pays: bool) -> Result<
    Paying,
    ContractError,
>
    decreases addresses.len(),
{
    if addresses.len() == 0 {
        Ok(state)
    } else {
        let address = addresses.first();
        match first_where(state.accounts, is_account_of(address)) {
            None => Err(ContractError::InvalidWatchList {  }),
            Some(i) => {
                let info = state.accounts[i].info;
                pay_each(
                    if pays {
                        Paying {
                            accounts: state.accounts.update(
                                i,
                                AccountState {
                                    info: StakerRewardAssetInfo {
                                        reward_debt: 0,
                                        reward_claimed: saturate(
                                            info.reward_claimed + info.reward_debt,
                                        ) as u128,
                                    },
                                    ..state.accounts[i]
                                },
                            ),
                            payments: state.payments.push(
                                PaymentState { recipient: address, amount: info.reward_debt },
                            ),
                            total: saturate(state.total + info.reward_debt) as u128,
                        }
                    } else {
                        state
                    },
                    addresses.drop_first(),
                    pays,
                )
            },
        }
    }
}

/// What a transfer leaves: the ledger, the accounts, and the payments to
/// make.
#[derive(Clone, Debug, PartialEq, Eq)]
pub struct Transferred {
    pub reward_info: RewardInfo,
    pub stakers: Vec<StakerAccount>,
    pub payments: Vec<Payment>,
}

/// What a transfer to the stakers at `addresses` comes to, or the reason
/// for which it is rejected: the sender is not the owner, or an address has
/// no account. The balance goes down by the sum of the payments, to zero at
/// the least.
pub open spec fn transferred(
    reward_info: RewardInfo,
    accounts: Seq<AccountState>,
    sender: Seq<char>,
    addresses: Seq<Seq<char>>,
) -> Result<(RewardInfo, Paying), ContractError> {
    if reward_info.owner@ != sender {
        Err(ContractError::Unauthorized {  })
    } else {
        match pay_each(
            Paying { accounts, payments: Seq::empty(), total: 0 },
            addresses,
            reward_info.reward_token.info is Token,
        ) {
            Err(error) => Err(error),
            Ok(paid) => Ok(
                (
                    RewardInfo {
                        reward_token: AssetToken {
                            amount: saturate(reward_info.reward_token.amount - paid.total) as u128,
                            ..reward_info.reward_token
                        },
                        ..reward_info
                    },
                    paid,
                ),
            ),
        }
    }
}

/// Pays the stakers of `watch_list` what they are owed. Only the owner may
/// do so, and every address must have an account among `stakers`.
#[verifier::loop_isolation(false)]
pub fn execute_transfer_reward(
    reward_info: RewardInfo,
    stakers: Vec<StakerAccount>,
    sender: &String,
    watch_list: &Vec<String>,
) -> (sent: Result<Transferred, ContractError>)
    ensures
        match transferred(
            reward_info,
            accounts_view(stakers@),
            sender@,
            addresses_view(watch_list@),
        ) {
            Ok(expected) => sent matches Ok(out) && out.reward_info == expected.0
                && accounts_view(out.stakers@) == expected.1.accounts && payments_view(
                out.payments@,
            ) == expected.1.payments,
            Err(error) => (sent matches Err(reason) && reason == error),
        },
{
    if reward_info.owner != *sender {
        return Err(ContractError::Unauthorized {  });
    }
    let pays = match &reward_info.reward_token.info {
        TokenInfo::Token { .. } => true,
        TokenInfo::NativeToken { .. } => false,
    };
    let ghost addresses = addresses_view(watch_list@);
    let ghost start = Paying { accounts: accounts_view(stakers@), payments: Seq::empty(), total: 0 };
    let mut stakers = stakers;
    let mut payments: Vec<Payment> = Vec::new();
    let mut total_reward_transfer: u128 = 0;
    let mut i: usize = 0;
    proof {
        assert(addresses.skip(0) =~= addresses);
        assert(payments_view(payments@) =~= Seq::<PaymentState>::empty());
    }
    while i < watch_list.len()
        invariant
            i <= watch_list.len(),
            pay_each(start, addresses, pays) == pay_each(
                Paying {
                    accounts: accounts_view(stakers@),
                    payments: payments_view(payments@),
                    total: total_reward_transfer,
                },
                addresses.skip(i as int),
                pays,
            ),
        decreases watch_list.len() - i,
    {
        let addr = &watch_list[i];
        proof {
            assert(addresses.skip(i as int).first() == addr@);
            assert(addresses.skip(i as int).drop_first() =~= addresses.skip(i + 1));
        }
        let place = match find_account(&stakers, addr) {
            None => {
                return Err(ContractError::InvalidWatchList {  });
            },
            Some(place) => place,
        };
        if pays {
            let ghost accounts = accounts_view(stakers@);
            let ghost made = payments_view(payments@);
            let staker_info = stakers[place].info;
            payments.push(Payment { recipient: addr.clone(), amount: staker_info.reward_debt });
            total_reward_transfer = saturating_add(total_reward_transfer, staker_info.reward_debt);
            let paid = StakerAccount {
                address: stakers[place].address.clone(),
                info: StakerRewardAssetInfo {
                    reward_debt: 0,
                    reward_claimed: saturating_add(
                        staker_info.reward_claimed,
                        staker_info.reward_debt,
                    ),
                },
            };
            stakers.set(place, paid);
            proof {
                assert(accounts_view(stakers@) =~= accounts.update(
                    place as int,
                    AccountState { info: paid.info, ..accounts[place as int] },
                ));
                assert(payments_view(payments@) =~= made.push(
                    PaymentState { recipient: addr@, amount: staker_info.reward_debt },
                ));
            }
        }
        i += 1;
    }
    let mut reward_info = reward_info;
    reward_info.reward_token.amount = saturating_sub(
        reward_info.reward_token.amount,
        total_reward_transfer,
    );
    Ok(Transferred { reward_info, stakers, payments })
}

} // verus!
