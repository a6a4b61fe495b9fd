//! Finding a record among the records that an operation was given.
//!
//! The records of one kind come as a list. A record is found by its key, and
//! where several records have the key, the first of them counts.

use vstd::prelude::*;
use super::state::{LockupTerm, NftInfo, pools_view, TermPool, TermState};

verus! {

/// The place of the first element of `s` of which `wanted` holds.
pub open spec fn first_where<T>(s: Seq<T>, wanted: spec_fn(T) -> bool) -> Option<int>
    decreases s.len(),
{
    if s.len() == 0 {
        None
    } else {
        match first_where(s.drop_last(), wanted) {
            Some(i) => Some(i),
            None => if wanted(s.last()) {
                Some(s.len() - 1)
            } else {
                None
            },
        }
    }
}

/// The first place is a place of `s` at which `wanted` holds and in front of
/// which it does not; there is none exactly where `wanted` holds nowhere.
pub proof fn lemma_first_where<T>(s: Seq<T>, wanted: spec_fn(T) -> bool)
    ensures
        match first_where(s, wanted) {
            Some(i) => 0 <= i < s.len() && wanted(s[i]) && forall|j: int|
                0 <= j < i ==> !wanted(s[j]),
            None => forall|j: int| 0 <= j < s.len() ==> !wanted(s[j]),
        },
    decreases s.len(),
{
    if s.len() > 0 {
        lemma_first_where(s.drop_last(), wanted);
        let front = s.drop_last();
        match first_where(front, wanted) {
            Some(i) => {
                assert(front[i] == s[i]);
                assert forall|j: int| 0 <= j < i implies !wanted(s[j]) by {
                    assert(front[j] == s[j]);
                }
            },
            None => {
                assert forall|j: int| 0 <= j < s.len() - 1 implies !wanted(s[j]) by {
                    assert(front[j] == s[j]);
                }
            },
        }
    }
}

/// Where `wanted` holds at `i` and nowhere in front of it, `i` is the first
/// place.
pub proof fn lemma_first_where_is<T>(s: Seq<T>, wanted: spec_fn(T) -> bool, i: int)
    requires
        0 <= i < s.len(),
        wanted(s[i]),
        forall|j: int| 0 <= j < i ==> !wanted(s[j]),
    ensures
        first_where(s, wanted) == Some(i),
{
    lemma_first_where(s, wanted);
}

/// Whether a term lasts `lockup_term` seconds.
pub open spec fn lasts(lockup_term: u64) -> spec_fn(LockupTerm) -> bool {
    |term: LockupTerm| term.value == lockup_term
}

/// Whether a pool is that of the term of `lockup_term` seconds.
pub open spec fn is_pool_of(lockup_term: u64) -> spec_fn(TermState) -> bool {
    |pool: TermState| pool.lockup_term == lockup_term
}

/// Whether a position is the one with the number `key` in the term of
/// `lockup_term` seconds.
pub open spec fn has_key(key: u64, lockup_term: u64) -> spec_fn(NftInfo) -> bool {
    |nft: NftInfo| nft.key == key && nft.lockup_term.value == lockup_term
}

/// The place of the first of `terms` that lasts `lockup_term` seconds.
pub fn find_term(terms: &Vec<LockupTerm>, lockup_term: u64) -> (found: Option<usize>)
    ensures
        found matches Some(i) ==> first_where(terms@, lasts(lockup_term)) == Some(i as int),
        found is None ==> first_where(terms@, lasts(lockup_term)) is None,
{
    let mut i: usize = 0;
    while i < terms.len()
        invariant
            i <= terms.len(),
            forall|j: int| 0 <= j < i ==> !(lasts(lockup_term))(terms@[j]),
        decreases terms.len() - i,
    {
        if terms[i].value == lockup_term {
            proof {
                lemma_first_where_is(terms@, lasts(lockup_term), i as int);
            }
            return Some(i);
        }
        i += 1;
    }
    proof {
        lemma_first_where(terms@, lasts(lockup_term));
    }
    None
}

/// The place of the first of `pools` that is the pool of the term of
/// `lockup_term` seconds.
pub fn find_pool(pools: &Vec<TermPool>, lockup_term: u64) -> (found: Option<usize>)
    ensures
        found matches Some(i) ==> first_where(pools_view(pools@), is_pool_of(lockup_term))
            == Some(i as int) && i < pools.len(),
        found is None ==> first_where(pools_view(pools@), is_pool_of(lockup_term)) is None,
{
    let mut i: usize = 0;
    while i < pools.len()
        invariant
            i <= pools.len(),
            forall|j: int| 0 <= j < i ==> !(is_pool_of(lockup_term))(pools_view(pools@)[j]),
        decreases pools.len() - i,
    {
        if pools[i].lockup_term == lockup_term {
            proof {
                lemma_first_where_is(pools_view(pools@), is_pool_of(lockup_term), i as int);
            }
            return Some(i);
        }
        i += 1;
    }
    proof {
        lemma_first_where(pools_view(pools@), is_pool_of(lockup_term));
    }
    None
}

/// The place of the first of `nfts` with the number `key` in the term of
/// `lockup_term` seconds.
pub fn find_nft(nfts: &Vec<NftInfo>, key: u64, lockup_term: u64) -> (found: Option<usize>)
    ensures
        found matches Some(i) ==> first_where(nfts@, has_key(key, lockup_term)) == Some(i as int)
            && i < nfts.len(),
        found is None ==> first_where(nfts@, has_key(key, lockup_term)) is None,
{
    let mut i: usize = 0;
    while i < nfts.len()
        invariant
            i <= nfts.len(),
            forall|j: int| 0 <= j < i ==> !(has_key(key, lockup_term))(nfts@[j]),
        decreases nfts.len() - i,
    {
        if nfts[i].key == key && nfts[i].lockup_term.value == lockup_term {
            proof {
                lemma_first_where_is(nfts@, has_key(key, lockup_term), i as int);
            }
            return Some(i);
        }
        i += 1;
    }
    proof {
        lemma_first_where(nfts@, has_key(key, lockup_term));
    }
    None
}

} // verus!
