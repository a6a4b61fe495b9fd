//! Taking positions out of a campaign.

use vstd::prelude::*;
use crate::campaign::lookup::{find_nft, first_where, has_key};
use crate::campaign::state::{
    CampaignInfo, NftInfo, NftKey, pools_view, StakerRewardAssetInfo, StakerState, TermPool,
    TermState, TokenInfo,
};
use crate::error::{ContractError, Record, StdError};
use crate::math::{saturate, saturating_add, saturating_sub};
use super::shared::{
    account_view, campaign_time, clamp_time, integrate_and_drop, integrate_in_pools, is_other_key,
    no_pool, no_staker, paid_ledger, remove_key,
};

verus! {

/// What an unstaking leaves: the account of the staker, and the position
/// that left, as its last integration shows it.
#[derive(Clone, Debug, PartialEq, Eq)]
pub struct Unstaked {
    pub staker: StakerRewardAssetInfo,
    pub nft: NftInfo,
}

/// What the unstaking of the position `nft_info` by `sender` comes to: the
/// position after its last integration and the account of the staker, or
/// the reason for which it is rejected.
///
/// It is rejected where there is no position, where the sender does not own
/// it, where its term has no pool, where the integration at the campaign's
/// time does not close it, and where the sender has no account, in this
/// order. Else the pending reward of the position becomes reward debt of
/// the staker, and the key of the position leaves the staker's keys.
pub open spec fn unstaked(
    campaign_info: CampaignInfo,
    nft_info: Option<NftInfo>,
    staker: Option<StakerState>,
    pools: Seq<TermState>,
    sender: String,
    unstake_info: NftKey,
    block_time: u64,
) -> Result<(NftInfo, StakerState), ContractError> {
    match nft_info {
        None => Err(ContractError::EmptyNft { key: unstake_info.key }),
        Some(nft) => if nft.owner@ != sender@ {
            Err(ContractError::NotOwner { token_id: nft.token_id })
        } else {
            match integrate_in_pools(
                nft,
                pools,
                campaign_time(block_time, campaign_info.end_time),
                campaign_info.end_time,
                campaign_info.reward_per_second,
            ) {
                None => Err(no_pool()),
                Some(done) => if !done.0.is_end_reward {
                    Err(ContractError::InvalidTimeToUnStake {  })
                } else {
                    match staker {
                        None => Err(no_staker()),
                        Some(account) => Ok(
                            (
                                done.0,
                                StakerState {
                                    keys: account.keys.filter(is_other_key(unstake_info)),
                                    reward_debt: saturate(
                                        account.reward_debt + done.0.pending_reward,
                                    ) as u128,
                                    ..account
                                },
                            ),
                        ),
                    }
                },
            }
        },
    }
}

/// Takes a position out of the campaign.
///
/// Only the owner of a position may take it out, and only once it is
/// closed: when its lock has run out or the campaign has ended. What the
/// position has earned and not yet handed over becomes reward debt of the
/// staker. The pools stay as they are.
pub fn execute_unstake_nft(
    campaign_info: &CampaignInfo,
    nft_info: Option<NftInfo>,
    staker: Option<StakerRewardAssetInfo>,
    terms: &Vec<TermPool>,
    sender: &String,
    unstake_info: NftKey,
    block_time: u64,
) -> (left: Result<Unstaked, ContractError>)
    ensures
        match unstaked(
            *campaign_info,
            nft_info,
            account_view(staker),
            pools_view(terms@),
            *sender,
            unstake_info,
            block_time,
        ) {
            Ok(expected) => left matches Ok(out) && out.nft == expected.0 && out.staker@
                == expected.1,
            Err(error) => (left matches Err(reason) && reason == error),
        },
{
    let nft = match nft_info {
        None => {
            return Err(ContractError::EmptyNft { key: unstake_info.key });
        },
        Some(nft) => nft,
    };
    let current_time = clamp_time(block_time, campaign_info.end_time);
    if nft.owner != *sender {
        return Err(ContractError::NotOwner { token_id: nft.token_id });
    }
    let new_nft_info = match integrate_and_drop(
        nft,
        terms,
        current_time,
        campaign_info.end_time,
        campaign_info.reward_per_second,
    ) {
        Err(error) => {
            return Err(error);
        },
        Ok(integrated) => integrated,
    };
    if !new_nft_info.is_end_reward {
        return Err(ContractError::InvalidTimeToUnStake {  });
    }
    let mut staker = match staker {
        None => {
            return Err(ContractError::Std(StdError::NotFound { kind: Record::Staker }));
        },
        Some(account) => account,
    };
    staker.reward_debt = saturating_add(staker.reward_debt, new_nft_info.pending_reward);
    staker.keys = remove_key(staker.keys, unstake_info);
    Ok(Unstaked { staker, nft: new_nft_info })
}

/// Whether a position is not the one that `key` names.
pub open spec fn is_other_nft(key: NftKey) -> spec_fn(NftInfo) -> bool {
    |nft: NftInfo| !(nft.key == key.key && nft.lockup_term.value == key.lockup_term)
}

/// The positions among `nfts` that `key` does not name.
fn remove_nfts(nfts: &Vec<NftInfo>, key: NftKey) -> (kept: Vec<NftInfo>)
    ensures
        kept@ == nfts@.filter(is_other_nft(key)),
{
    let mut kept: Vec<NftInfo> = Vec::new();
    let mut i: usize = 0;
    proof {
        assert(nfts@.take(0).filter(is_other_nft(key)) =~= Seq::<NftInfo>::empty()) by {
            reveal(Seq::filter);
        }
    }
    while i < nfts.len()
        invariant
            i <= nfts.len(),
            kept@ == nfts@.take(i as int).filter(is_other_nft(key)),
        decreases nfts.len() - i,
    {
        proof {
            assert(nfts@.take(i + 1) =~= nfts@.take(i as int).push(nfts@[i as int]));
            nfts@.take(i as int).lemma_filter_push(nfts@[i as int], is_other_nft(key));
        }
        if !(nfts[i].key == key.key && nfts[i].lockup_term.value == key.lockup_term) {
            kept.push(nfts[i].duplicate());
        }
        i += 1;
    }
    proof {
        assert(nfts@.take(nfts.len() as int) =~= nfts@);
    }
    kept
}

/// The state of an unstaking of several positions: the positions on
/// record, the keys of the staker, the reward of the positions that left,
/// and those positions.
pub struct Leaving {
    pub nfts: Seq<NftInfo>,
    pub keys: Seq<NftKey>,
    pub reward: u128,
    pub left: Seq<NftInfo>,
}

/// Takes the positions `un_stakes` out, one after the other.
///
/// Each must be on record, belong to `sender`, have a pool for its term, and
/// be closed by its integration at `now`: the first that is not ends the
/// unstaking. A position that leaves is taken off the record, with every
/// other record under its key, so that no key can be paid twice. Its key
/// leaves the keys of the staker, and its pending reward is added to the
/// reward, cut off at the largest amount. The pools stay as they are.
pub open spec fn leave(
    state: Leaving,
    un_stakes: Seq<NftKey>,
    sender: String,
    pools: Seq<TermState>,
    now: u64,
    campaign_end: u64,
    reward_per_second: u128,
) -> Result<Leaving, ContractError>
    decreases un_stakes.len(),
{
    if un_stakes.len() == 0 {
        Ok(state)
    } else {
        let key = un_stakes.first();
        match first_where(state.nfts, has_key(key.key, key.lockup_term)) {
            None => Err(ContractError::EmptyNft { key: key.key }),
            Some(i) => if state.nfts[i].owner@ != sender@ {
                Err(ContractError::NotOwner { token_id: state.nfts[i].token_id })
            } else {
                match integrate_in_pools(
                    state.nfts[i],
                    pools,
                    now,
                    campaign_end,
                    reward_per_second,
                ) {
                    None => Err(no_pool()),
                    Some(done) => if !done.0.is_end_reward {
                        Err(ContractError::InvalidTimeToUnStake {  })
                    } else {
                        leave(
                            Leaving {
                                nfts: state.nfts.filter(is_other_nft(key)),
                                keys: state.keys.filter(is_other_key(key)),
                                reward: saturate(state.reward + done.0.pending_reward) as u128,
                                left: state.left.push(done.0),
                            },
                            un_stakes.drop_first(),
                            sender,
                            pools,
                            now,
                            campaign_end,
                            reward_per_second,
                        )
                    },
                }
            },
        }
    }
}

/// What an unstaking with payment leaves: the ledger, the account of the
/// staker, the positions that stay on record, those that left, as their last
/// integration shows them, and the reward that is paid for them.
#[derive(Clone, Debug, PartialEq, Eq)]
pub struct UnstakedAndClaimed {
    pub campaign_info: CampaignInfo,
    pub staker: StakerRewardAssetInfo,
    pub nfts: Vec<NftInfo>,
    pub left: Vec<NftInfo>,
    pub reward: u128,
}

/// `UnstakedAndClaimed` as a plain value.
pub struct UnstakedAndClaimedState {
    pub campaign_info: CampaignInfo,
    pub staker: StakerState,
    pub nfts: Seq<NftInfo>,
    pub left: Seq<NftInfo>,
    pub reward: u128,
}

impl View for UnstakedAndClaimed {
    type V = UnstakedAndClaimedState;

    open spec fn view(&self) -> UnstakedAndClaimedState {
        UnstakedAndClaimedState {
            campaign_info: self.campaign_info,
            staker: self.staker@,
            nfts: self.nfts@,
            left: self.left@,
            reward: self.reward,
        }
    }
}

/// What the unstaking of `un_stakes` with payment comes to, or the reason
/// for which it is rejected.
///
/// It is rejected where the sender has no account, where one of the
/// positions cannot leave, and where rewards would be paid in a native
/// token, in this order. Else the positions leave and their pending reward
/// is paid: it is added to what the staker and the campaign have claimed and
/// taken from the balance.
pub open spec fn unstaked_and_claimed(
    campaign_info: CampaignInfo,
    staker: Option<StakerState>,
    nfts: Seq<NftInfo>,
    pools: Seq<TermState>,
    sender: String,
    un_stakes: Seq<NftKey>,
    block_time: u64,
) -> Result<UnstakedAndClaimedState, ContractError> {
    match staker {
        None => Err(no_staker()),
        Some(account) => match leave(
            Leaving { nfts, keys: account.keys, reward: 0, left: Seq::empty() },
            un_stakes,
            sender,
            pools,
            campaign_time(block_time, campaign_info.end_time),
            campaign_info.end_time,
            campaign_info.reward_per_second,
        ) {
            Err(error) => Err(error),
            Ok(gone) => if campaign_info.reward_token.info is NativeToken {
                Err(ContractError::InvalidToken {  })
            } else {
                Ok(
                    UnstakedAndClaimedState {
                        campaign_info: paid_ledger(campaign_info, gone.reward),
                        staker: StakerState {
                            keys: gone.keys,
                            reward_claimed: saturate(account.reward_claimed + gone.reward) as u128,
                            ..account
                        },
                        nfts: gone.nfts,
                        left: gone.left,
                        reward: gone.reward,
                    },
                )
            },
        },
    }
}

/// Takes several positions out of the campaign and pays what they have
/// earned.
///
/// Every position must belong to the sender and be closed. Their pending
/// reward is paid at once; the reward debt of the staker stays as it is.
/// Where the campaign's reward token is a native token, in which nothing can
/// be paid, the unstaking is rejected and nothing changes. `nfts` holds the
/// positions on record that the keys may name.
#[verifier::loop_isolation(false)]
pub fn execute_unstake_nft_and_claim(
    campaign_info: CampaignInfo,
    staker: Option<StakerRewardAssetInfo>,
    nfts: Vec<NftInfo>,
    terms: &Vec<TermPool>,
    sender: &String,
    un_stakes: &Vec<NftKey>,
    block_time: u64,
) -> (left: Result<UnstakedAndClaimed, ContractError>)
    ensures
        match unstaked_and_claimed(
            campaign_info,
            account_view(staker),
            nfts@,
            pools_view(terms@),
            *sender,
            un_stakes@,
            block_time,
        ) {
            Ok(expected) => left matches Ok(out) && out@ == expected && (campaign_info.wf()
                ==> out.campaign_info.wf()),
            Err(error) => (left matches Err(reason) && reason == error),
        },
{
    let current_time = clamp_time(block_time, campaign_info.end_time);
    let mut staker = match staker {
        None => {
            return Err(ContractError::Std(StdError::NotFound { kind: Record::Staker }));
        },
        Some(account) => account,
    };
    let ghost account = staker@;
    let ghost start = Leaving { nfts: nfts@, keys: account.keys, reward: 0, left: Seq::empty() };
    let mut pending_reward_staker: u128 = 0;
    let mut nfts = nfts;
    let mut left: Vec<NftInfo> = Vec::new();
    let mut i: usize = 0;
    proof {
        assert(un_stakes@.skip(0) =~= un_stakes@);
    }
    while i < un_stakes.len()
        invariant
            i <= un_stakes.len(),
            staker.reward_debt == account.reward_debt,
            staker.reward_claimed == account.reward_claimed,
            leave(
                start,
                un_stakes@,
                *sender,
                pools_view(terms@),
                current_time,
                campaign_info.end_time,
                campaign_info.reward_per_second,
            ) == leave(
                Leaving {
                    nfts: nfts@,
                    keys: staker.keys@,
                    reward: pending_reward_staker,
                    left: left@,
                },
                un_stakes@.skip(i as int),
                *sender,
                pools_view(terms@),
                current_time,
                campaign_info.end_time,
                campaign_info.reward_per_second,
            ),
        decreases un_stakes.len() - i,
    {
        let key = un_stakes[i];
        proof {
            assert(un_stakes@.skip(i as int).first() == key);
            assert(un_stakes@.skip(i as int).drop_first() =~= un_stakes@.skip(i + 1));
        }
        let place = match find_nft(&nfts, key.key, key.lockup_term) {
            None => {
                return Err(ContractError::EmptyNft { key: key.key });
            },
            Some(place) => place,
        };
        if nfts[place].owner != *sender {
            return Err(ContractError::NotOwner { token_id: nfts[place].token_id.clone() });
        }
        let nft_info = nfts[place].duplicate();
        nfts = remove_nfts(&nfts, key);
        let new_nft_info = match integrate_and_drop(
            nft_info,
            terms,
            current_time,
            campaign_info.end_time,
            campaign_info.reward_per_second,
        ) {
            Err(error) => {
                return Err(error);
            },
            Ok(integrated) => integrated,
        };
        if !new_nft_info.is_end_reward {
            return Err(ContractError::InvalidTimeToUnStake {  });
        }
        pending_reward_staker = saturating_add(pending_reward_staker, new_nft_info.pending_reward);
        staker.keys = remove_key(staker.keys, key);
        left.push(new_nft_info);
        i += 1;
    }
    let mut campaign_info = campaign_info;
    match &campaign_info.reward_token.info {
        TokenInfo::Token { .. } => {},
        TokenInfo::NativeToken { .. } => {
            return Err(ContractError::InvalidToken {  });
        },
    }
    staker.reward_claimed = saturating_add(staker.reward_claimed, pending_reward_staker);
    campaign_info.reward_token.amount = saturating_sub(
        campaign_info.reward_token.amount,
        pending_reward_staker,
    );
    campaign_info.total_reward_claimed = saturating_add(
        campaign_info.total_reward_claimed,
        pending_reward_staker,
    );
    Ok(UnstakedAndClaimed { campaign_info, staker, nfts, left, reward: pending_reward_staker })
}

} // verus!
