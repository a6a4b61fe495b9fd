//! What a campaign answers without changing anything.

use vstd::prelude::*;
use crate::campaign::accrual::integrate;
use crate::campaign::curve::Term;
use crate::campaign::lookup::{find_pool, first_where, is_pool_of};
use crate::campaign::state::{
    CampaignInfo, NftInfo, pools_view, StakerRewardAssetInfo, TermPool, TermState,
};
use crate::error::{ContractError, Record, StdError};
use super::shared::{
    account_view, campaign_time, clamp_time, integrate_and_drop, integrate_in_pools, new_account,
    no_pool,
};

verus! {

/// A position as it would stand after its integration at the campaign's
/// time. Neither the position nor its term is changed on record.
pub fn query_nft_info(
    campaign_info: &CampaignInfo,
    nft_info: NftInfo,
    terms: &Vec<TermPool>,
    block_time: u64,
) -> (projected: Result<NftInfo, ContractError>)
    ensures
        match integrate_in_pools(
            nft_info,
            pools_view(terms@),
            campaign_time(block_time, campaign_info.end_time),
            campaign_info.end_time,
            campaign_info.reward_per_second,
        ) {
            Some(done) => (projected matches Ok(value) && value == done.0),
            None => (projected matches Err(reason) && reason == no_pool()),
        },
{
    let current_time = clamp_time(block_time, campaign_info.end_time);
    integrate_and_drop(
        nft_info,
        terms,
        current_time,
        campaign_info.end_time,
        campaign_info.reward_per_second,
    )
}

/// Whether a position of the term of `lockup_term` seconds has a number
/// behind `start_after` and not behind `count`.
pub open spec fn in_page(lockup_term: u64, start_after: u64, count: u64) -> spec_fn(
    NftInfo,
) -> bool {
    |nft: NftInfo| nft.lockup_term.value == lockup_term && start_after < nft.key <= count
}

/// A position as its integration on `term` at `now` leaves it.
pub open spec fn projection(
    term: Term,
    now: u64,
    campaign_end: u64,
    reward_per_second: u128,
) -> spec_fn(NftInfo) -> NftInfo {
    |nft: NftInfo| integrate(nft, term, now, campaign_end, reward_per_second).0
}

/// The first `n` elements of `s`, or all of `s` where it has no more.
pub open spec fn first_n<T>(s: Seq<T>, n: int) -> Seq<T> {
    if 0 <= n < s.len() {
        s.take(n)
    } else {
        s
    }
}

/// The number of positions on a page for which no limit is given.
pub const DEFAULT_LIMIT: u32 = 30;

/// The page of positions that `query_nfts` answers with, or the reason for
/// which it does not: the term has no pool.
pub open spec fn nft_page(
    campaign_info: CampaignInfo,
    nfts: Seq<NftInfo>,
    pools: Seq<TermState>,
    lockup_term: u64,
    start_after: Option<u64>,
    limit: Option<u32>,
    block_time: u64,
) -> Result<Seq<NftInfo>, ContractError> {
    let after = match start_after {
        Some(key) => key,
        None => 0,
    };
    let room = match limit {
        Some(n) => n,
        None => DEFAULT_LIMIT,
    };
    match first_where(pools, is_pool_of(lockup_term)) {
        None => Err(no_pool()),
        Some(p) => Ok(
            first_n(
                nfts.filter(in_page(lockup_term, after, pools[p].number_of_nfts)),
                room as int,
            ).map_values(
                projection(
                    pools[p].term,
                    campaign_time(block_time, campaign_info.end_time),
                    campaign_info.end_time,
                    campaign_info.reward_per_second,
                ),
            ),
        ),
    }
}

/// The elements of a front part of `s` that are wanted are the first of the
/// wanted elements of `s`.
proof fn lemma_filter_front<T>(s: Seq<T>, wanted: spec_fn(T) -> bool, i: int)
    requires
        0 <= i <= s.len(),
    ensures
        s.take(i).filter(wanted).len() <= s.filter(wanted).len(),
        s.take(i).filter(wanted) == s.filter(wanted).take(s.take(i).filter(wanted).len() as int),
{
    let front = s.take(i);
    let back = s.skip(i);
    assert(s =~= front + back);
    Seq::filter_distributes_over_add(front, back, wanted);
    assert((front.filter(wanted) + back.filter(wanted)).take(front.filter(wanted).len() as int)
        =~= front.filter(wanted));
}

/// A page of the positions of a term, each as it would stand after its
/// integration at the campaign's time.
///
/// Of the positions among `nfts` that belong to the term, those with a
/// number behind `start_after` are taken, in the order of `nfts`, up to
/// `limit` of them, or thirty where no limit is given. Nothing is changed on
/// record.
#[verifier::loop_isolation(false)]
pub fn query_nfts(
    campaign_info: &CampaignInfo,
    nfts: &Vec<NftInfo>,
    terms: &Vec<TermPool>,
    lockup_term: u64,
    start_after: Option<u64>,
    limit: Option<u32>,
    block_time: u64,
) -> (page: Result<Vec<NftInfo>, ContractError>)
    ensures
        match nft_page(
            *campaign_info,
            nfts@,
            pools_view(terms@),
            lockup_term,
            start_after,
            limit,
            block_time,
        ) {
            Ok(expected) => (page matches Ok(value) && value@ == expected),
            Err(error) => (page matches Err(reason) && reason == error),
        },
{
    let start_after = match start_after {
        Some(key) => key,
        None => 0,
    };
    let limit = match limit {
        Some(n) => n,
        None => DEFAULT_LIMIT,
    } as usize;
    let place = match find_pool(terms, lockup_term) {
        None => {
            return Err(ContractError::Std(StdError::NotFound { kind: Record::Term }));
        },
        Some(place) => place,
    };
    let nft_count_by_term = terms[place].number_of_nfts;
    let current_time = clamp_time(block_time, campaign_info.end_time);
    let ghost pool = pools_view(terms@)[place as int];
    assert(terms[place as int]@ == pool);
    let ghost wanted = in_page(lockup_term, start_after, nft_count_by_term);
    let ghost shown = projection(
        pool.term,
        current_time,
        campaign_info.end_time,
        campaign_info.reward_per_second,
    );
    let mut page: Vec<NftInfo> = Vec::new();
    let mut i: usize = 0;
    proof {
        assert(nfts@.take(0).filter(wanted) =~= Seq::<NftInfo>::empty()) by {
            reveal(Seq::filter);
        }
        assert(page@ =~= nfts@.take(0).filter(wanted).map_values(shown));
    }
    while i < nfts.len() && page.len() < limit
        invariant
            i <= nfts.len(),
            page.len() <= limit,
            page@ == nfts@.take(i as int).filter(wanted).map_values(shown),
        decreases nfts.len() - i,
    {
        proof {
            assert(nfts@.take(i + 1) =~= nfts@.take(i as int).push(nfts@[i as int]));
            nfts@.take(i as int).lemma_filter_push(nfts@[i as int], wanted);
        }
        if nfts[i].lockup_term.value == lockup_term && start_after < nfts[i].key && nfts[i].key
            <= nft_count_by_term {
            let new_nft_info = match integrate_and_drop(
                nfts[i].duplicate(),
                terms,
                current_time,
                campaign_info.end_time,
                campaign_info.reward_per_second,
            ) {
                Err(error) => {
                    return Err(error);
                },
                Ok(integrated) => integrated,
            };
            proof {
                let seen = nfts@.take(i as int).filter(wanted);
                assert(seen.push(nfts@[i as int]).map_values(shown) =~= seen.map_values(
                    shown,
                ).push(shown(nfts@[i as int])));
            }
            page.push(new_nft_info);
        }
        i += 1;
    }
    proof {
        lemma_filter_front(nfts@, wanted, i as int);
        if i == nfts.len() {
            assert(nfts@.take(i as int) =~= nfts@);
        }
    }
    Ok(page)
}

/// The account of a staker, or that of a staker who holds nothing where
/// there is none on record.
pub fn query_staker_info(staker: Option<StakerRewardAssetInfo>) -> (account:
    StakerRewardAssetInfo)
    ensures
        account@ == match account_view(staker) {
            Some(found) => found,
            None => new_account(),
        },
{
    match staker {
        Some(found) => found,
        None => StakerRewardAssetInfo { keys: Vec::new(), reward_debt: 0, reward_claimed: 0 },
    }
}

/// The version of the campaign's rules.
pub fn query_version_contract() -> (version: Result<String, ContractError>)
    ensures
        version matches Ok(name) && name@ == "version_2"@,
{
    Ok("version_2".to_owned())
}

} // verus!
