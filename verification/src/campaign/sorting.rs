//! Stable sorting by an integer key, as a mathematical function on
//! sequences, and the facts about it that the curve relies on.

use vstd::prelude::*;

verus! {

/// `s` with `x` put behind the last element whose key is not greater than
/// that of `x` (in front of all of `s` where there is none).
pub open spec fn insert_by_key<T>(s: Seq<T>, x: T, key: spec_fn(T) -> int) -> Seq<T>
    decreases s.len(),
{
    if s.len() == 0 {
        seq![x]
    } else if key(s.last()) <= key(x) {
        s.push(x)
    } else {
        insert_by_key(s.drop_last(), x, key).push(s.last())
    }
}

/// The elements of `s` in ascending order of their keys; elements of equal
/// key keep the order that they have in `s`.
pub open spec fn sort_by_key<T>(s: Seq<T>, key: spec_fn(T) -> int) -> Seq<T>
    decreases s.len(),
{
    if s.len() == 0 {
        s
    } else {
        insert_by_key(sort_by_key(s.drop_last(), key), s.last(), key)
    }
}

/// No element of `s` has a smaller key than one in front of it.
pub open spec fn ascending<T>(s: Seq<T>, key: spec_fn(T) -> int) -> bool {
    forall|i: int, j: int| 0 <= i < j < s.len() ==> key(s[i]) <= key(s[j])
}

/// Every element of `s` has a greater key than those in front of it.
pub open spec fn strictly_ascending<T>(s: Seq<T>, key: spec_fn(T) -> int) -> bool {
    forall|i: int, j: int| 0 <= i < j < s.len() ==> key(s[i]) < key(s[j])
}

/// Where `j` is the place behind the last element whose key is not
/// greater than that of `x`, the insertion puts `x` at `j`.
pub proof fn lemma_insert_at<T>(s: Seq<T>, x: T, key: spec_fn(T) -> int, j: int)
    requires
        0 <= j <= s.len(),
        forall|k: int| j <= k < s.len() ==> key(s[k]) > key(x),
        j > 0 ==> key(s[j - 1]) <= key(x),
    ensures
        insert_by_key(s, x, key) == s.insert(j, x),
    decreases s.len(),
{
    if s.len() == 0 {
        assert(s.insert(j, x) =~= seq![x]);
    } else if j == s.len() {
        assert(s.insert(j, x) =~= s.push(x));
    } else {
        lemma_insert_at(s.drop_last(), x, key, j);
        assert(s.drop_last().insert(j, x).push(s.last()) =~= s.insert(j, x));
    }
}

/// An insertion adds one element and keeps the others in their order:
/// there is a place `j` such that the result is `s` with `x` at `j`.
pub proof fn lemma_insert_place<T>(s: Seq<T>, x: T, key: spec_fn(T) -> int) -> (j: int)
    ensures
        0 <= j <= s.len(),
        insert_by_key(s, x, key) == s.insert(j, x),
        forall|k: int| j <= k < s.len() ==> key(s[k]) > key(x),
        j > 0 ==> key(s[j - 1]) <= key(x),
    decreases s.len(),
{
    if s.len() == 0 {
        assert(s.insert(0, x) =~= seq![x]);
        0
    } else if key(s.last()) <= key(x) {
        assert(s.insert(s.len() as int, x) =~= s.push(x));
        s.len() as int
    } else {
        let front = s.drop_last();
        let j = lemma_insert_place(front, x, key);
        assert(front.insert(j, x).push(s.last()) =~= s.insert(j, x));
        assert forall|k: int| j <= k < s.len() implies key(s[k]) > key(x) by {
            if k < front.len() {
                assert(front[k] == s[k]);
            }
        }
        if j > 0 {
            assert(front[j - 1] == s[j - 1]);
        }
        j
    }
}

/// Insertion into an ascending sequence gives an ascending sequence.
pub proof fn lemma_insert_ascending<T>(s: Seq<T>, x: T, key: spec_fn(T) -> int)
    requires
        ascending(s, key),
    ensures
        ascending(insert_by_key(s, x, key), key),
        insert_by_key(s, x, key).len() == s.len() + 1,
{
    let j = lemma_insert_place(s, x, key);
    let r = s.insert(j, x);
    assert forall|a: int, b: int| 0 <= a < b < r.len() implies key(r[a]) <= key(r[b]) by {
        if a < j && b > j {
            assert(r[a] == s[a] && r[b] == s[b - 1]);
        } else if a == j {
            assert(r[b] == s[b - 1]);
        } else if b == j {
            assert(r[a] == s[a]);
            assert(key(s[a]) <= key(s[j - 1]));
        } else if b < j {
            assert(r[a] == s[a] && r[b] == s[b]);
        } else {
            assert(r[a] == s[a - 1] && r[b] == s[b - 1]);
        }
    }
}

/// A sorted sequence is ascending and as long as the one it was made from.
pub proof fn lemma_sort_ascending<T>(s: Seq<T>, key: spec_fn(T) -> int)
    ensures
        ascending(sort_by_key(s, key), key),
        sort_by_key(s, key).len() == s.len(),
    decreases s.len(),
{
    if s.len() > 0 {
        lemma_sort_ascending(s.drop_last(), key);
        lemma_insert_ascending(sort_by_key(s.drop_last(), key), s.last(), key);
    }
}

/// Sorting an ascending sequence changes nothing.
pub proof fn lemma_sort_of_ascending<T>(s: Seq<T>, key: spec_fn(T) -> int)
    requires
        ascending(s, key),
    ensures
        sort_by_key(s, key) == s,
    decreases s.len(),
{
    if s.len() > 0 {
        let front = s.drop_last();
        assert(ascending(front, key)) by {
            assert forall|i: int, j: int| 0 <= i < j < front.len() implies key(front[i]) <= key(
                front[j],
            ) by {
                assert(front[i] == s[i] && front[j] == s[j]);
            }
        }
        lemma_sort_of_ascending(front, key);
        lemma_insert_at(front, s.last(), key, front.len() as int);
        assert(front.insert(front.len() as int, s.last()) =~= s);
    }
}

/// Sorting keeps the elements: each occurs as often as before.
pub proof fn lemma_sort_permutes<T>(s: Seq<T>, key: spec_fn(T) -> int)
    ensures
        sort_by_key(s, key).to_multiset() == s.to_multiset(),
    decreases s.len(),
{
    broadcast use vstd::seq_lib::to_multiset_build, vstd::seq_lib::to_multiset_insert;

    if s.len() > 0 {
        let front = s.drop_last();
        lemma_sort_permutes(front, key);
        let sorted = sort_by_key(front, key);
        let j = lemma_insert_place(sorted, s.last(), key);
        assert(sorted.insert(j, s.last()).to_multiset() == sorted.to_multiset().insert(s.last()));
        assert(front.push(s.last()) =~= s);
        assert(s.to_multiset() == front.to_multiset().insert(s.last()));
    }
}

/// Insertion in front of elements that all have greater keys leaves them
/// where they are.
pub proof fn lemma_insert_before<T>(front: Seq<T>, back: Seq<T>, x: T, key: spec_fn(T) -> int)
    requires
        forall|k: int| 0 <= k < back.len() ==> key(back[k]) > key(x),
    ensures
        insert_by_key(front + back, x, key) == insert_by_key(front, x, key) + back,
{
    let j = lemma_insert_place(front, x, key);
    let all = front + back;
    assert forall|k: int| j <= k < all.len() implies key(all[k]) > key(x) by {
        if k < front.len() {
            assert(all[k] == front[k]);
        } else {
            assert(all[k] == back[k - front.len()]);
        }
    }
    if j > 0 {
        assert(all[j - 1] == front[j - 1]);
    }
    lemma_insert_at(all, x, key, j);
    assert(all.insert(j, x) =~= front.insert(j, x) + back);
}

/// Insertion behind elements of which none has a greater key leaves them
/// where they are.
pub proof fn lemma_insert_behind<T>(front: Seq<T>, back: Seq<T>, x: T, key: spec_fn(T) -> int)
    requires
        forall|k: int| 0 <= k < front.len() ==> key(front[k]) <= key(x),
    ensures
        insert_by_key(front + back, x, key) == front + insert_by_key(back, x, key),
{
    let j = lemma_insert_place(back, x, key);
    let all = front + back;
    let place = front.len() + j;
    assert forall|k: int| place <= k < all.len() implies key(all[k]) > key(x) by {
        assert(all[k] == back[k - front.len()]);
    }
    if place > 0 {
        if j > 0 {
            assert(all[place - 1] == back[j - 1]);
        } else {
            assert(all[place - 1] == front[front.len() - 1]);
        }
    }
    lemma_insert_at(all, x, key, place);
    assert(all.insert(place, x) =~= front + back.insert(j, x));
}

/// What holds of every element of a sequence holds of every element of
/// the sorted sequence.
pub proof fn lemma_sort_keeps<T>(s: Seq<T>, key: spec_fn(T) -> int, holds: spec_fn(T) -> bool)
    requires
        forall|k: int| 0 <= k < s.len() ==> holds(s[k]),
    ensures
        forall|k: int| 0 <= k < sort_by_key(s, key).len() ==> holds(sort_by_key(s, key)[k]),
    decreases s.len(),
{
    if s.len() > 0 {
        let front = s.drop_last();
        assert forall|k: int| 0 <= k < front.len() implies holds(front[k]) by {
            assert(front[k] == s[k]);
        }
        lemma_sort_keeps(front, key, holds);
        let sorted = sort_by_key(front, key);
        let j = lemma_insert_place(sorted, s.last(), key);
        let result = sorted.insert(j, s.last());
        assert forall|k: int| 0 <= k < result.len() implies holds(result[k]) by {
            if k < j {
                assert(result[k] == sorted[k]);
            } else if k == j {
                assert(result[k] == s[s.len() - 1]);
            } else {
                assert(result[k] == sorted[k - 1]);
            }
        }
    }
}

/// Sorting changes of no kind of element how many there are.
pub proof fn lemma_sort_filter_len<T>(s: Seq<T>, key: spec_fn(T) -> int, wanted: spec_fn(T) -> bool)
    ensures
        sort_by_key(s, key).filter(wanted).len() == s.filter(wanted).len(),
    decreases s.len(),
{
    reveal(Seq::filter);
    if s.len() > 0 {
        let front = s.drop_last();
        let x = s.last();
        lemma_sort_filter_len(front, key, wanted);
        let sorted = sort_by_key(front, key);
        let j = lemma_insert_place(sorted, x, key);
        let before = sorted.take(j);
        let behind = sorted.skip(j);
        assert(sorted =~= before + behind);
        assert(sorted.insert(j, x) =~= before.push(x) + behind);
        Seq::filter_distributes_over_add(before, behind, wanted);
        Seq::filter_distributes_over_add(before.push(x), behind, wanted);
        before.lemma_filter_push(x, wanted);
    }
}

} // verus!
