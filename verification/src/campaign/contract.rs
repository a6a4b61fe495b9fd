//! The decisions of a campaign: what each operation checks, and what it
//! leaves on record.
//!
//! Every operation takes the records that it reads and returns those that it
//! changed, or the reason for which it was rejected. Nothing is kept between
//! calls.

pub mod claim;
pub mod compact;
pub mod query;
pub mod setup;
pub mod shared;
pub mod stake;
pub mod unstake;
pub mod withdraw;

pub use self::claim::{
    Claimed, claimed, ClaimedState, execute_claim_reward, gather, Gathering, paid_account,
};
pub use self::compact::{
    compact_each, Compacted, compacted, CompactedState, Compacting, execute_reset_pool, in_term,
    integrate_term, last_sample,
};
pub use self::query::{
    DEFAULT_LIMIT, first_n, in_page, nft_page, projection, query_nft_info, query_nfts,
    query_staker_info, query_version_contract,
};
pub use self::setup::{
    add_reward_token_error, emission, empty_pool, execute_add_reward_token, execute_update_admin,
    funded, instantiate, instantiate_error, MAX_LENGTH_DESCRIPTION, MAX_LENGTH_IMAGE,
    MAX_LENGTH_NAME, MAX_TIME_VALID, new_campaign,
};
pub use self::shared::{
    account_view, campaign_time, integrate_in_pools, is_other_key, new_account, no_nft, no_pool,
    no_staker, paid_ledger,
};
pub use self::stake::{
    execute_stake_nft, is_running, new_position, next_count, owned_by, stake_each, staked, Staked,
    StakedState, Staking,
};
pub use self::unstake::{
    execute_unstake_nft, execute_unstake_nft_and_claim, is_other_nft, leave, Leaving, unstaked,
    Unstaked, unstaked_and_claimed, UnstakedAndClaimed, UnstakedAndClaimedState,
};
pub use self::withdraw::{
    execute_withdraw_reward, owed_with, pending_reward, query_total_pending_reward, withdrawn,
};
