//! Stable ordering of sequences by an integer time key.
use vstd::prelude::*;

verus! {

/// Inserts `x` into `s` after every element at its end whose key is not
/// greater than the key of `x`: the step of a stable insertion sort.
pub open spec fn insert_by_key<T>(s: Seq<T>, x: T, key: spec_fn(T) -> int) -> Seq<T>
    decreases s.len(),
{
    if s.len() == 0 {
        seq![x]
    } else if key(s.last()) <= key(x) {
        s.push(x)
    } else {
        insert_by_key(s.drop_last(), x, key).push(s.last())
    }
}

/// The stable sort of `s` by `key`: elements with equal keys keep their
/// relative order.
pub open spec fn sort_by_key<T>(s: Seq<T>, key: spec_fn(T) -> int) -> Seq<T>
    decreases s.len(),
{
    if s.len() == 0 {
        s
    } else {
        insert_by_key(sort_by_key(s.drop_last(), key), s.last(), key)
    }
}

/// `s` is in nondecreasing order of `key`.
pub open spec fn sorted_by_key<T>(s: Seq<T>, key: spec_fn(T) -> int) -> bool {
    forall|i: int, j: int| 0 <= i <= j < s.len() ==> key(s[i]) <= key(s[j])
}

/// Inserting at the position found by scanning back from the end over the
/// elements whose key exceeds that of `x`.
pub proof fn lemma_insert_at<T>(s: Seq<T>, x: T, key: spec_fn(T) -> int, p: int)
    requires
        0 <= p <= s.len(),
        forall|j: int| p <= j < s.len() ==> key(s[j]) > key(x),
        p > 0 ==> key(s[p - 1]) <= key(x),
    ensures
        insert_by_key(s, x, key) == s.take(p).push(x) + s.skip(p),
    decreases s.len(),
{
    if s.len() == 0 {
        assert(s.take(p).push(x) + s.skip(p) =~= seq![x]);
    } else if key(s.last()) <= key(x) {
        assert(p == s.len());
        assert(s.take(p).push(x) + s.skip(p) =~= s.push(x));
    } else {
        let t = s.drop_last();
        lemma_insert_at(t, x, key, p);
        assert(t.take(p).push(x) + t.skip(p) + seq![s.last()] =~= s.take(p).push(x) + s.skip(p));
    }
}

/// Insertion keeps a sorted sequence sorted and keeps its elements.
pub proof fn lemma_insert_sorted<T>(s: Seq<T>, x: T, key: spec_fn(T) -> int)
    requires
        sorted_by_key(s, key),
    ensures
        sorted_by_key(insert_by_key(s, x, key), key),
        insert_by_key(s, x, key).to_multiset() == s.to_multiset().insert(x),
        insert_by_key(s, x, key).len() == s.len() + 1,
    decreases s.len(),
{
    broadcast use vstd::seq_lib::group_to_multiset_ensures;

    if s.len() == 0 {
        assert(seq![x] =~= s.push(x));
    } else if key(s.last()) <= key(x) {
    } else {
        let t = s.drop_last();
        lemma_insert_sorted(t, x, key);
        let r = insert_by_key(t, x, key);
        assert(s =~= t.push(s.last()));
        assert forall|i: int, j: int| 0 <= i <= j < r.push(s.last()).len() implies key(
            r.push(s.last())[i],
        ) <= key(r.push(s.last())[j]) by {
            if j == r.len() && i < r.len() {
                // every element of r is either x or an element of t
                assert(r.to_multiset().count(r[i]) > 0);
                assert(t.to_multiset().insert(x).count(r[i]) > 0);
                if r[i] != x {
                    assert(t.to_multiset().count(r[i]) > 0);
                    let k = choose|k: int| 0 <= k < t.len() && t[k] == r[i];
                    assert(t.contains(r[i]));
                    assert(s[k] == t[k]);
                }
            }
        }
    }
}

/// The stable sort is sorted and is a permutation of its input.
pub proof fn lemma_sort_by_key<T>(s: Seq<T>, key: spec_fn(T) -> int)
    ensures
        sorted_by_key(sort_by_key(s, key), key),
        sort_by_key(s, key).to_multiset() == s.to_multiset(),
        sort_by_key(s, key).len() == s.len(),
    decreases s.len(),
{
    broadcast use vstd::seq_lib::group_to_multiset_ensures;

    if s.len() > 0 {
        lemma_sort_by_key(s.drop_last(), key);
        lemma_insert_sorted(sort_by_key(s.drop_last(), key), s.last(), key);
        assert(s =~= s.drop_last().push(s.last()));
    }
}

/// The elements of `s` whose key is `k`, in their order in `s`.
pub open spec fn with_key<T>(s: Seq<T>, key: spec_fn(T) -> int, k: int) -> Seq<T> {
    s.filter(has_key(key, k))
}

/// An element has key `k`.
pub open spec fn has_key<T>(key: spec_fn(T) -> int, k: int) -> spec_fn(T) -> bool {
    |x: T| key(x) == k
}

proof fn lemma_with_key_push<T>(s: Seq<T>, y: T, key: spec_fn(T) -> int, k: int)
    ensures
        with_key(s.push(y), key, k) == if key(y) == k {
            with_key(s, key, k).push(y)
        } else {
            with_key(s, key, k)
        },
{
    s.lemma_filter_push(y, has_key(key, k));
}

proof fn lemma_insert_with_key<T>(s: Seq<T>, x: T, key: spec_fn(T) -> int, k: int)
    ensures
        with_key(insert_by_key(s, x, key), key, k) == if key(x) == k {
            with_key(s, key, k).push(x)
        } else {
            with_key(s, key, k)
        },
    decreases s.len(),
{
    if s.len() == 0 {
        assert(s.push(x) =~= seq![x]);
        lemma_with_key_push(s, x, key, k);
    } else if key(s.last()) <= key(x) {
        lemma_with_key_push(s, x, key, k);
    } else {
        let t = s.drop_last();
        lemma_insert_with_key(t, x, key, k);
        let r = insert_by_key(t, x, key);
        lemma_with_key_push(r, s.last(), key, k);
        lemma_with_key_push(t, s.last(), key, k);
        assert(t.push(s.last()) =~= s);
    }
}

/// The sort is stable: for every key, the elements with that key come out
/// in the order in which they came in.
pub proof fn lemma_sort_stable<T>(s: Seq<T>, key: spec_fn(T) -> int, k: int)
    ensures
        with_key(sort_by_key(s, key), key, k) == with_key(s, key, k),
    decreases s.len(),
{
    if s.len() > 0 {
        lemma_sort_stable(s.drop_last(), key, k);
        lemma_insert_with_key(sort_by_key(s.drop_last(), key), s.last(), key, k);
        lemma_with_key_push(s.drop_last(), s.last(), key, k);
        assert(s.drop_last().push(s.last()) =~= s);
    }
}

} // verus!
