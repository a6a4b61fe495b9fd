//! Records of a staking campaign.
//!
//! Addresses and token identifiers are strings, amounts are `u128` values and
//! times are whole seconds. The records are plain data: the functions of
//! `utils` and `contract` take them by value and return the records to keep.

use vstd::prelude::*;
use super::curve::Term;

verus! {

/// Who may compact the campaign's curves and hand the role on.
#[derive(Clone, Debug, PartialEq, Eq)]
pub struct Config {
    pub admin: String,
}

/// The token in which rewards are paid.
#[derive(Clone, Debug, PartialEq, Eq)]
pub enum TokenInfo {
    Token { contract_addr: String },
    NativeToken { denom: String },
}

impl TokenInfo {
    /// The name by which the token is shown: the address of its contract,
    /// or its denomination.
    pub fn to_string(&self) -> (name: String)
        ensures
            name@ == match *self {
                TokenInfo::Token { contract_addr } => contract_addr@,
                TokenInfo::NativeToken { denom } => denom@,
            },
    {
        match self {
            TokenInfo::NativeToken { denom } => denom.clone(),
            TokenInfo::Token { contract_addr } => contract_addr.clone(),
        }
    }
}

/// An amount of a token.
#[derive(Clone, Debug, PartialEq, Eq)]
pub struct AssetToken {
    pub info: TokenInfo,
    pub amount: u128,
}

/// A lock-up term: positions are locked for `value` seconds and share
/// `percent` hundredths of the campaign's emission.
#[derive(Clone, Copy, Debug, PartialEq, Eq, Structural)]
pub struct LockupTerm {
    pub value: u64,
    pub percent: u128,
}

/// The campaign and its ledger.
#[derive(Clone, Debug, PartialEq, Eq)]
pub struct CampaignInfo {
    pub owner: String,
    pub campaign_name: String,
    pub campaign_image: String,
    pub campaign_description: String,
    /// What stakers have claimed so far.
    pub total_reward_claimed: u128,
    /// What was deposited so far.
    pub total_reward: u128,
    /// The most positions that one staker may hold; zero for no limit.
    pub limit_per_staker: u64,
    /// The most positions that the campaign may hold; zero for no limit.
    pub total_eligible: u64,
    /// The reward token and the balance of it that the campaign holds.
    pub reward_token: AssetToken,
    pub allowed_collection: String,
    pub lockup_term: Vec<LockupTerm>,
    /// The emission: what the campaign pays out per second over all terms.
    pub reward_per_second: u128,
    pub start_time: u64,
    pub end_time: u64,
}

/// The sum of the shares of `terms`.
pub open spec fn percent_sum(terms: Seq<LockupTerm>) -> int
    decreases terms.len(),
{
    if terms.len() == 0 {
        0
    } else {
        percent_sum(terms.drop_last()) + terms.last().percent
    }
}

/// Every one of `terms` lasts some time.
pub open spec fn terms_last(terms: Seq<LockupTerm>) -> bool {
    forall|i: int| 0 <= i < terms.len() ==> (#[trigger] terms[i]).value > 0
}

impl CampaignInfo {
    /// The balance is covered by the deposits: the campaign holds no more
    /// than was deposited.
    pub open spec fn backed(&self) -> bool {
        self.reward_token.amount <= self.total_reward
    }

    /// The campaign is well formed where it starts before it ends, every
    /// one of its terms lasts some time, the shares of its terms add up to
    /// one hundred, and its balance is covered by its deposits.
    pub open spec fn wf(&self) -> bool {
        &&& self.start_time < self.end_time
        &&& terms_last(self.lockup_term@)
        &&& percent_sum(self.lockup_term@) == 100
        &&& self.backed()
    }
}

/// A staked position.
#[derive(Clone, Debug, PartialEq, Eq)]
pub struct NftInfo {
    pub key: u64,
    pub token_id: String,
    pub owner: String,
    /// The reward accrued up to `time_calc` and not yet moved to the owner.
    pub pending_reward: u128,
    pub lockup_term: LockupTerm,
    /// Set once the position accrues no more: its lock has run out or the
    /// campaign has ended.
    pub is_end_reward: bool,
    pub start_time: u64,
    /// The time up to which the reward has been accrued.
    pub time_calc: u64,
    pub end_time: u64,
}

impl NftInfo {
    /// A copy of the position.
    pub fn duplicate(&self) -> (copy: NftInfo)
        ensures
            copy == *self,
    {
        NftInfo {
            key: self.key,
            token_id: self.token_id.clone(),
            owner: self.owner.clone(),
            pending_reward: self.pending_reward,
            lockup_term: self.lockup_term,
            is_end_reward: self.is_end_reward,
            start_time: self.start_time,
            time_calc: self.time_calc,
            end_time: self.end_time,
        }
    }

    /// The position is well formed where its accrual time lies between its
    /// start and its end.
    pub open spec fn wf(&self) -> bool {
        self.start_time <= self.time_calc <= self.end_time
    }
}

/// A request to stake tokens into a term.
#[derive(Clone, Debug, PartialEq, Eq)]
pub struct NftStake {
    pub token_ids: Vec<String>,
    pub lockup_term: u64,
}

/// Identifies a staked position: its sequence number within its term.
#[derive(Clone, Copy, Debug, PartialEq, Eq, Structural)]
pub struct NftKey {
    pub key: u64,
    pub lockup_term: u64,
}

/// A request to take a position out of the campaign.
#[derive(Clone, Debug, PartialEq, Eq)]
pub struct NftUnStake {
    pub key: u64,
    pub token_id: String,
    pub lockup_term: u64,
}

/// One sample of a term's step function: from `timestamp` on, `rate`
/// positions are active in the term, until the next sample.
#[derive(Clone, Copy, Debug, PartialEq, Eq, Structural)]
pub struct RewardRate {
    pub timestamp: u64,
    pub rate: u64,
}

/// What a staker holds in the campaign.
#[derive(Clone, Debug, PartialEq, Eq)]
pub struct StakerRewardAssetInfo {
    /// The positions of the staker.
    pub keys: Vec<NftKey>,
    /// Reward taken out of positions and not yet paid out.
    pub reward_debt: u128,
    /// Reward paid out so far.
    pub reward_claimed: u128,
}

/// A staker's holdings as a plain value.
pub struct StakerState {
    pub keys: Seq<NftKey>,
    pub reward_debt: u128,
    pub reward_claimed: u128,
}

impl View for StakerRewardAssetInfo {
    type V = StakerState;

    open spec fn view(&self) -> StakerState {
        StakerState {
            keys: self.keys@,
            reward_debt: self.reward_debt,
            reward_claimed: self.reward_claimed,
        }
    }
}

/// What the campaign keeps for one lock-up term.
#[derive(Clone, Debug, PartialEq, Eq)]
pub struct TermPool {
    /// The term's duration in seconds, by which the term is found.
    pub lockup_term: u64,
    /// The term's curve.
    pub reward_rates: Vec<RewardRate>,
    /// The running total of active positions.
    pub total_staking: u64,
    /// The ends of the positions that the running total still counts.
    pub expiration_times: Vec<u64>,
    /// How many positions were ever staked into the term.
    pub number_of_nfts: u64,
}

/// A pool as the accrual engine sees it.
pub struct TermState {
    pub lockup_term: u64,
    pub term: Term,
    pub number_of_nfts: u64,
}

impl View for TermPool {
    type V = TermState;

    open spec fn view(&self) -> TermState {
        TermState {
            lockup_term: self.lockup_term,
            term: Term {
                samples: self.reward_rates@,
                total: self.total_staking,
                expirations: self.expiration_times@,
            },
            number_of_nfts: self.number_of_nfts,
        }
    }
}

/// The pools `pools` as the accrual engine sees them.
pub open spec fn pools_view(pools: Seq<TermPool>) -> Seq<TermState> {
    pools.map_values(|pool: TermPool| pool@)
}

/// What a campaign has on record, but for its positions and stakers.
#[derive(Clone, Debug, PartialEq, Eq)]
pub struct CampaignStore {
    pub config: Config,
    pub campaign_info: CampaignInfo,
    /// One pool for each lock-up term.
    pub terms: Vec<TermPool>,
    /// The reward that was owed on the curves when they were last
    /// compacted, summed over all compactions.
    pub previous_total_reward: u128,
    /// How many positions the campaign holds.
    pub total_nfts: u64,
}

} // verus!
