//! Why an operation was rejected.

use vstd::prelude::*;

verus! {

/// What the start of a campaign that does not lie before its end is
/// rejected with.
pub const START_NOT_BEFORE_END: &'static str = "## Start time is greater than end time ##";

/// A record that an operation looked for.
#[derive(Clone, Copy, Debug, PartialEq, Eq, Structural)]
pub enum Record {
    /// The pool of a lock-up term.
    Term,
    /// A staked position.
    Nft,
    /// The account of a staker.
    Staker,
}

/// A failure that is not particular to campaigns.
#[derive(Clone, Debug, PartialEq, Eq)]
pub enum StdError {
    /// The request makes no sense; `msg` says why.
    GenericErr { msg: &'static str },
    /// A record that has to be there is not.
    NotFound { kind: Record },
}

/// Why an operation was rejected. A rejected operation changes nothing.
#[derive(Clone, Debug, PartialEq, Eq)]
pub enum ContractError {
    Std(StdError),
    /// The sender may not do this.
    Unauthorized {},
    /// The sender does not own the token.
    NotOwner { token_id: String },
    /// Rewards cannot be paid in this token.
    InvalidToken {},
    /// An address of the watch list has no account.
    InvalidWatchList {},
    /// The campaign would run longer than a campaign may.
    LimitStartDate {},
    /// A text of the campaign is longer than `max` bytes.
    LimitCharacter { max: usize },
    /// The shares of the lock-up terms do not add up to the whole.
    InvalidFunds {},
    /// The campaign is running and funded: no reward can be added.
    InvalidTimeToAddReward {},
    /// The campaign has no reward yet.
    EmptyReward {},
    /// The campaign would hold more positions than it may.
    LimitPerCollection {},
    /// The campaign has no such lock-up term, or the term lasts no time.
    InvalidLockupTerm {},
    /// The campaign has not started, or has ended.
    InvalidTimeToStakeNft {},
    /// The staker would hold more positions than one may.
    LimitPerStake {},
    /// There is no position under this key.
    EmptyNft { key: u64 },
    /// The position is still locked and the campaign still runs.
    InvalidTimeToUnStake {},
    /// The sender has no account in the campaign.
    InvalidClaim {},
    /// The sender asks for more than is owed.
    InsufficientBalance {},
    /// The campaign has not ended.
    InvalidTimeToWithdrawReward {},
}

} // verus!
