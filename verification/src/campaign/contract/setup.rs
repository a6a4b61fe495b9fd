//! Setting a campaign up, funding it, and handing its administration on.

use vstd::prelude::*;
use vstd::utf8::encode_utf8;
use crate::campaign::curve::Term;
use crate::campaign::msg::InstantiateMsg;
use crate::campaign::state::{
    AssetToken, CampaignInfo, CampaignStore, Config, LockupTerm, percent_sum, pools_view, TermPool,
    terms_last, TermState, TokenInfo,
};
use crate::error::{ContractError, START_NOT_BEFORE_END, StdError};
use crate::math::{checked_add, checked_div, saturate, saturating_add};

verus! {

/// The longest that a campaign may run: three years, in seconds.
pub const MAX_TIME_VALID: u64 = 94608000;

/// The most bytes that the name of a campaign may have.
pub const MAX_LENGTH_NAME: usize = 100;

/// The most bytes that the image of a campaign may have.
pub const MAX_LENGTH_IMAGE: usize = 500;

/// The most bytes that the description of a campaign may have.
pub const MAX_LENGTH_DESCRIPTION: usize = 500;

/// The pool of a term into which nothing was staked yet.
pub open spec fn empty_pool(lockup_term: u64) -> TermState {
    TermState {
        lockup_term,
        term: Term { samples: Seq::empty(), total: 0, expirations: Seq::empty() },
        number_of_nfts: 0,
    }
}

/// Why the set-up `msg` is rejected, if it is. The checks are made in this
/// order: the reward token, the order of start and end, the length of the
/// campaign, the lengths of its texts, the shares of its terms, the
/// durations of its terms.
pub open spec fn instantiate_error(msg: InstantiateMsg) -> Option<ContractError> {
    if msg.reward_token_info.info is NativeToken {
        Some(ContractError::InvalidToken {  })
    } else if msg.start_time >= msg.end_time {
        Some(ContractError::Std(StdError::GenericErr { msg: START_NOT_BEFORE_END }))
    } else if msg.end_time - msg.start_time > MAX_TIME_VALID {
        Some(ContractError::LimitStartDate {  })
    } else if encode_utf8(msg.campaign_name@).len() > MAX_LENGTH_NAME {
        Some(ContractError::LimitCharacter { max: MAX_LENGTH_NAME })
    } else if encode_utf8(msg.campaign_image@).len() > MAX_LENGTH_IMAGE {
        Some(ContractError::LimitCharacter { max: MAX_LENGTH_IMAGE })
    } else if encode_utf8(msg.campaign_description@).len() > MAX_LENGTH_DESCRIPTION {
        Some(ContractError::LimitCharacter { max: MAX_LENGTH_DESCRIPTION })
    } else if percent_sum(msg.lockup_term@) != 100 {
        Some(ContractError::InvalidFunds {  })
    } else if !terms_last(msg.lockup_term@) {
        Some(ContractError::InvalidLockupTerm {  })
    } else {
        None
    }
}

/// The ledger of the campaign that `msg` sets up: nothing deposited,
/// nothing claimed, no emission.
pub open spec fn new_campaign(msg: InstantiateMsg) -> CampaignInfo {
    CampaignInfo {
        owner: msg.owner,
        campaign_name: msg.campaign_name,
        campaign_image: msg.campaign_image,
        campaign_description: msg.campaign_description,
        total_reward_claimed: 0,
        total_reward: 0,
        limit_per_staker: msg.limit_per_staker,
        total_eligible: msg.total_eligible,
        reward_token: AssetToken { info: msg.reward_token_info.info, amount: 0 },
        allowed_collection: msg.allowed_collection,
        lockup_term: msg.lockup_term,
        reward_per_second: 0,
        start_time: msg.start_time,
        end_time: msg.end_time,
    }
}

/// The length of `text` in bytes.
fn byte_len(text: &String) -> (length: usize)
    ensures
        length == encode_utf8(text@).len(),
{
    text.as_str().as_bytes().len()
}

/// Whether the shares of `terms` add up to one hundred.
fn shares_are_whole(terms: &Vec<LockupTerm>) -> (whole: bool)
    ensures
        whole == (percent_sum(terms@) == 100),
{
    let mut total_percent: u128 = 0;
    let mut i: usize = 0;
    while i < terms.len()
        invariant
            i <= terms.len(),
            total_percent <= 100 ==> total_percent == percent_sum(terms@.take(i as int)),
            total_percent > 100 ==> percent_sum(terms@.take(i as int)) > 100,
        decreases terms.len() - i,
    {
        proof {
            assert(terms@.take(i + 1).drop_last() =~= terms@.take(i as int));
        }
        if total_percent <= 100 {
            total_percent = match checked_add(total_percent, terms[i].percent) {
                Ok(sum) => sum,
                Err(_) => u128::MAX,
            };
        }
        i += 1;
    }
    proof {
        assert(terms@.take(terms.len() as int) =~= terms@);
    }
    total_percent == 100
}

/// Whether every one of `terms` lasts some time.
fn all_terms_last(terms: &Vec<LockupTerm>) -> (all: bool)
    ensures
        all == terms_last(terms@),
{
    let mut i: usize = 0;
    while i < terms.len()
        invariant
            i <= terms.len(),
            forall|j: int| 0 <= j < i ==> (#[trigger] terms@[j]).value > 0,
        decreases terms.len() - i,
    {
        if terms[i].value == 0 {
            return false;
        }
        i += 1;
    }
    true
}

/// An empty pool for each of `terms`.
fn empty_pools(terms: &Vec<LockupTerm>) -> (pools: Vec<TermPool>)
    ensures
        pools_view(pools@) == terms@.map_values(|term: LockupTerm| empty_pool(term.value)),
{
    let mut pools: Vec<TermPool> = Vec::new();
    let mut i: usize = 0;
    while i < terms.len()
        invariant
            i <= terms.len(),
            pools@.len() == i,
            forall|k: int| 0 <= k < i ==> (#[trigger] pools@[k])@ == empty_pool(terms@[k].value),
        decreases terms.len() - i,
    {
        pools.push(
            TermPool {
                lockup_term: terms[i].value,
                reward_rates: Vec::new(),
                total_staking: 0,
                expiration_times: Vec::new(),
                number_of_nfts: 0,
            },
        );
        i += 1;
    }
    proof {
        assert(pools_view(pools@) =~= terms@.map_values(
            |term: LockupTerm| empty_pool(term.value),
        ));
    }
    pools
}

/// Sets up a campaign.
///
/// The set-up is rejected where rewards would be paid in a native token,
/// where the start does not lie before the end, where the campaign would
/// run for more than three years, where its name, image or description is
/// too long, where the shares of its lock-up terms do not add up to one
/// hundred, or where a lock-up term lasts no time. Else the campaign starts
/// with an empty ledger and an empty pool for each term.
pub fn instantiate(msg: InstantiateMsg) -> (made: Result<CampaignStore, ContractError>)
    ensures
        match made {
            Ok(store) => {
                &&& instantiate_error(msg) is None
                &&& store.campaign_info.wf()
                &&& store.config == Config { admin: msg.admin }
                &&& store.campaign_info == new_campaign(msg)
                &&& pools_view(store.terms@) == msg.lockup_term@.map_values(
                    |term: LockupTerm| empty_pool(term.value),
                )
                &&& store.previous_total_reward == 0
                &&& store.total_nfts == 0
            },
            Err(error) => instantiate_error(msg) == Some(error),
        },
{
    match &msg.reward_token_info.info {
        TokenInfo::Token { .. } => {},
        TokenInfo::NativeToken { .. } => {
            return Err(ContractError::InvalidToken {  });
        },
    }
    if msg.start_time >= msg.end_time {
        return Err(ContractError::Std(StdError::GenericErr { msg: START_NOT_BEFORE_END }));
    }
    if msg.end_time - msg.start_time > MAX_TIME_VALID {
        return Err(ContractError::LimitStartDate {  });
    }
    if byte_len(&msg.campaign_name) > MAX_LENGTH_NAME {
        return Err(ContractError::LimitCharacter { max: MAX_LENGTH_NAME });
    }
    if byte_len(&msg.campaign_image) > MAX_LENGTH_IMAGE {
        return Err(ContractError::LimitCharacter { max: MAX_LENGTH_IMAGE });
    }
    if byte_len(&msg.campaign_description) > MAX_LENGTH_DESCRIPTION {
        return Err(ContractError::LimitCharacter { max: MAX_LENGTH_DESCRIPTION });
    }
    if !shares_are_whole(&msg.lockup_term) {
        return Err(ContractError::InvalidFunds {  });
    }
    if !all_terms_last(&msg.lockup_term) {
        return Err(ContractError::InvalidLockupTerm {  });
    }
    let terms = empty_pools(&msg.lockup_term);
    let campaign_info = CampaignInfo {
        owner: msg.owner,
        campaign_name: msg.campaign_name,
        campaign_image: msg.campaign_image,
        campaign_description: msg.campaign_description,
        total_reward_claimed: 0,
        total_reward: 0,
        limit_per_staker: msg.limit_per_staker,
        total_eligible: msg.total_eligible,
        reward_token: AssetToken { info: msg.reward_token_info.info, amount: 0 },
        allowed_collection: msg.allowed_collection,
        lockup_term: msg.lockup_term,
        reward_per_second: 0,
        start_time: msg.start_time,
        end_time: msg.end_time,
    };
    Ok(
        CampaignStore {
            config: Config { admin: msg.admin },
            campaign_info,
            terms,
            previous_total_reward: 0,
            total_nfts: 0,
        },
    )
}

/// The emission of a campaign that runs for `duration` seconds on a
/// balance of `amount`: the balance spread over the duration, rounded down.
/// A campaign without duration emits its balance.
pub open spec fn emission(amount: u128, duration: int) -> u128 {
    if duration <= 0 {
        amount
    } else {
        (amount as int / duration) as u128
    }
}

/// The ledger after `amount` was deposited. Where rewards are paid in a
/// token of a contract, the balance and the deposits grow by `amount`, cut
/// off at the largest amount, and the emission is set anew from the
/// balance. Else nothing changes.
pub open spec fn funded(campaign_info: CampaignInfo, amount: u128) -> CampaignInfo {
    if campaign_info.reward_token.info is Token {
        let balance = saturate(campaign_info.reward_token.amount + amount) as u128;
        CampaignInfo {
            reward_token: AssetToken { amount: balance, ..campaign_info.reward_token },
            reward_per_second: emission(
                balance,
                campaign_info.end_time - campaign_info.start_time,
            ),
            total_reward: saturate(campaign_info.total_reward + amount) as u128,
            ..campaign_info
        }
    } else {
        campaign_info
    }
}

/// Why a deposit by `sender` at `current_time` is rejected, if it is.
pub open spec fn add_reward_token_error(
    campaign_info: CampaignInfo,
    sender: String,
    current_time: u64,
) -> Option<ContractError> {
    if campaign_info.owner@ != sender@ {
        Some(ContractError::Unauthorized {  })
    } else if campaign_info.reward_per_second != 0 && campaign_info.start_time <= current_time {
        Some(ContractError::InvalidTimeToAddReward {  })
    } else {
        None
    }
}

/// Deposits `amount` of the reward token into the campaign.
///
/// Only the owner of the campaign may deposit, and only while the campaign
/// has no emission yet or has not started. The deposit raises the balance
/// and the total of deposits, and the emission becomes the balance spread
/// evenly over the seconds of the campaign.
pub fn execute_add_reward_token(
    campaign_info: CampaignInfo,
    sender: &String,
    amount: u128,
    current_time: u64,
) -> (added: Result<CampaignInfo, ContractError>)
    ensures
        match added {
            Ok(ledger) => add_reward_token_error(campaign_info, *sender, current_time) is None
                && ledger == funded(campaign_info, amount) && (campaign_info.wf()
                ==> ledger.wf()),
            Err(error) => add_reward_token_error(campaign_info, *sender, current_time) == Some(
                error,
            ),
        },
{
    if campaign_info.owner != *sender {
        return Err(ContractError::Unauthorized {  });
    }
    if campaign_info.reward_per_second != 0 && campaign_info.start_time <= current_time {
        return Err(ContractError::InvalidTimeToAddReward {  });
    }
    let mut campaign_info = campaign_info;
    match &campaign_info.reward_token.info {
        TokenInfo::Token { .. } => {
            let balance = saturating_add(campaign_info.reward_token.amount, amount);
            let duration = campaign_info.end_time.saturating_sub(campaign_info.start_time);
            campaign_info.reward_token.amount = balance;
            campaign_info.reward_per_second = match checked_div(balance, duration as u128) {
                Ok(per_second) => per_second,
                Err(_) => balance,
            };
            campaign_info.total_reward = saturating_add(campaign_info.total_reward, amount);
        },
        TokenInfo::NativeToken { .. } => {},
    }
    Ok(campaign_info)
}

/// Hands the role of the administrator to `admin`. Only the administrator
/// may do so.
pub fn execute_update_admin(config: Config, sender: &String, admin: String) -> (updated: Result<
    Config,
    ContractError,
>)
    ensures
        match updated {
            Ok(handed) => sender@ == config.admin@ && handed == (Config { admin }),
            Err(reason) => sender@ != config.admin@ && reason == (ContractError::Unauthorized {  }),
        },
{
    if *sender != config.admin {
        return Err(ContractError::Unauthorized {  });
    }
    Ok(Config { admin })
}

} // verus!
