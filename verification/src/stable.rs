//! Stable sorting by an integer key, as a mathematical function.

use vstd::prelude::*;

verus! {

/// `s` with `x` put in behind the last element whose key is not above that of `x`.
pub open spec fn insert_by<T>(s: Seq<T>, x: T, key: spec_fn(T) -> int) -> Seq<T>
    decreases s.len(),
{
    if s.len() == 0 || key(s.last()) <= key(x) {
        s.push(x)
    } else {
        insert_by(s.drop_last(), x, key).push(s.last())
    }
}

/// The elements of `s` in ascending order of their keys; elements with equal
/// keys keep the order that they have in `s`.
pub open spec fn sort_by<T>(s: Seq<T>, key: spec_fn(T) -> int) -> Seq<T>
    decreases s.len(),
{
    if s.len() == 0 {
        s
    } else {
        insert_by(sort_by(s.drop_last(), key), s.last(), key)
    }
}

/// The keys ascend.
pub open spec fn ascending<T>(s: Seq<T>, key: spec_fn(T) -> int) -> bool {
    forall|i: int, j: int| 0 <= i <= j < s.len() ==> key(#[trigger] s[i]) <= key(#[trigger] s[j])
}

/// The elements of `s` with key `k`, in their order.
pub open spec fn with_key<T>(s: Seq<T>, key: spec_fn(T) -> int, k: int) -> Seq<T>
    decreases s.len(),
{
    if s.len() == 0 {
        s
    } else if key(s.last()) == k {
        with_key(s.drop_last(), key, k).push(s.last())
    } else {
        with_key(s.drop_last(), key, k)
    }
}

/// Inserting at the place that separates the smaller or equal keys from the
/// greater ones is `insert_by`.
pub proof fn lemma_insert_at<T>(s: Seq<T>, x: T, key: spec_fn(T) -> int, p: int)
    requires
        0 <= p <= s.len(),
        p == 0 || key(s[p - 1]) <= key(x),
        forall|i: int| p <= i < s.len() ==> key(#[trigger] s[i]) > key(x),
    ensures
        insert_by(s, x, key) == s.insert(p, x),
    decreases s.len(),
{
    if p == s.len() {
        assert(s.insert(p, x) =~= s.push(x));
    } else {
        lemma_insert_at(s.drop_last(), x, key, p);
        assert(s.drop_last().insert(p, x).push(s.last()) =~= s.insert(p, x));
    }
}

proof fn lemma_insert_keeps_order<T>(s: Seq<T>, x: T, key: spec_fn(T) -> int)
    requires
        ascending(s, key),
    ensures
        ascending(insert_by(s, x, key), key),
        insert_by(s, x, key).len() == s.len() + 1,
        key(insert_by(s, x, key).last()) == key(x) || (s.len() > 0 && key(
            insert_by(s, x, key).last(),
        ) == key(s.last())),
        forall|k: int| #[trigger]
            with_key(insert_by(s, x, key), key, k) == if key(x) == k {
                with_key(s, key, k).push(x)
            } else {
                with_key(s, key, k)
            },
    decreases s.len(),
{
    if s.len() == 0 || key(s.last()) <= key(x) {
        let r = s.push(x);
        assert(r.drop_last() =~= s);
        assert forall|i: int, j: int| 0 <= i <= j < r.len() implies key(#[trigger] r[i]) <= key(
            #[trigger] r[j],
        ) by {
            if j == s.len() && i < s.len() {
                assert(key(s[i]) <= key(s[s.len() - 1]));
            }
        }
    } else {
        let head = s.drop_last();
        lemma_insert_keeps_order(head, x, key);
        let inner = insert_by(head, x, key);
        let r = inner.push(s.last());
        assert(r.drop_last() =~= inner);
        if head.len() > 0 {
            assert(key(s[s.len() - 2]) <= key(s[s.len() - 1]));
        }
        assert forall|i: int, j: int| 0 <= i <= j < r.len() implies key(#[trigger] r[i]) <= key(
            #[trigger] r[j],
        ) by {
            if j == inner.len() && i < inner.len() {
                assert(key(inner[i]) <= key(inner[inner.len() - 1]));
            }
        }
        assert forall|k: int| #[trigger]
            with_key(r, key, k) == if key(x) == k {
                with_key(s, key, k).push(x)
            } else {
                with_key(s, key, k)
            } by {
            let _ = with_key(inner, key, k);
            if k == key(s.last()) {
                assert(key(x) != k);
            }
        }
    }
}

/// `sort_by` is the stable sort: its keys ascend, and for each key it holds the
/// same elements as the input, in the same order.
pub proof fn sort_is_stable<T>(s: Seq<T>, key: spec_fn(T) -> int)
    ensures
        sort_by(s, key).len() == s.len(),
        ascending(sort_by(s, key), key),
        forall|k: int| #[trigger] with_key(sort_by(s, key), key, k) == with_key(s, key, k),
    decreases s.len(),
{
    if s.len() > 0 {
        sort_is_stable(s.drop_last(), key);
        lemma_insert_keeps_order(sort_by(s.drop_last(), key), s.last(), key);
        assert forall|k: int| #[trigger]
            with_key(sort_by(s, key), key, k) == with_key(s, key, k) by {
            assert(with_key(sort_by(s.drop_last(), key), key, k) == with_key(
                s.drop_last(),
                key,
                k,
            ));
        }
    }
}

proof fn lemma_insert_keeps_bound<T>(s: Seq<T>, x: T, key: spec_fn(T) -> int, bound: int)
    requires
        forall|i: int| 0 <= i < s.len() ==> key(#[trigger] s[i]) <= bound,
        key(x) <= bound,
    ensures
        ({
            let r = insert_by(s, x, key);
            forall|i: int| 0 <= i < r.len() ==> key(#[trigger] r[i]) <= bound
        }),
    decreases s.len(),
{
    if s.len() > 0 && key(s.last()) > key(x) {
        lemma_insert_keeps_bound(s.drop_last(), x, key, bound);
        assert(key(s[s.len() - 1]) <= bound);
        let inner = insert_by(s.drop_last(), x, key);
        assert forall|i: int| 0 <= i <= inner.len() implies key(
            #[trigger] inner.push(s.last())[i],
        ) <= bound by {
            if i < inner.len() {
                assert(key(inner[i]) <= bound);
            }
        }
    }
}

/// Sorting a sequence keeps a bound on its keys.
pub proof fn sort_keeps_bound<T>(s: Seq<T>, key: spec_fn(T) -> int, bound: int)
    requires
        forall|i: int| 0 <= i < s.len() ==> key(#[trigger] s[i]) <= bound,
    ensures
        ({
            let r = sort_by(s, key);
            forall|i: int| 0 <= i < r.len() ==> key(#[trigger] r[i]) <= bound
        }),
    decreases s.len(),
{
    if s.len() > 0 {
        sort_keeps_bound(s.drop_last(), key, bound);
        lemma_insert_keeps_bound(sort_by(s.drop_last(), key), s.last(), key, bound);
    }
}

proof fn lemma_last_with_key<T>(s: Seq<T>, key: spec_fn(T) -> int, k: int)
    requires
        ascending(s, key),
        with_key(s, key, k).len() > 0,
    ensures
        s.len() > 0,
        k <= key(s.last()),
    decreases s.len(),
{
    if key(s.last()) != k {
        let head = s.drop_last();
        lemma_last_with_key(head, key, k);
        assert(key(s[s.len() - 2]) <= key(s[s.len() - 1]));
    }
}

/// Ascending sequences that hold the same elements for each key, in the same
/// order, are equal.
pub proof fn ascending_is_unique<T>(s: Seq<T>, t: Seq<T>, key: spec_fn(T) -> int)
    requires
        ascending(s, key),
        ascending(t, key),
        forall|k: int| #[trigger] with_key(s, key, k) == with_key(t, key, k),
    ensures
        s == t,
    decreases s.len(),
{
    if s.len() == 0 {
        if t.len() > 0 {
            assert(with_key(s, key, key(t.last())) == with_key(t, key, key(t.last())));
        }
    } else {
        let k = key(s.last());
        assert(with_key(s, key, k) == with_key(t, key, k));
        lemma_last_with_key(t, key, k);
        let n = key(t.last());
        assert(with_key(s, key, n) == with_key(t, key, n));
        lemma_last_with_key(s, key, n);
        assert(with_key(s, key, k).last() == s.last());
        assert(with_key(t, key, k).last() == t.last());
        let front = s.drop_last();
        let other = t.drop_last();
        assert forall|j: int| #[trigger] with_key(front, key, j) == with_key(other, key, j) by {
            assert(with_key(s, key, j) == with_key(t, key, j));
            if j == k {
                assert(with_key(s, key, j).drop_last() =~= with_key(front, key, j));
                assert(with_key(t, key, j).drop_last() =~= with_key(other, key, j));
            }
        }
        ascending_is_unique(front, other, key);
        assert(s =~= front.push(s.last()));
        assert(t =~= other.push(t.last()));
    }
}

/// No two elements have the same key.
pub open spec fn distinct_keys<T>(s: Seq<T>, key: spec_fn(T) -> int) -> bool {
    forall|i: int, j: int|
        0 <= i < j < s.len() ==> key(#[trigger] s[i]) != key(#[trigger] s[j])
}

proof fn lemma_with_distinct_key<T>(s: Seq<T>, key: spec_fn(T) -> int, k: int)
    requires
        distinct_keys(s, key),
    ensures
        forall|i: int|
            0 <= i < s.len() && key(#[trigger] s[i]) == k ==> with_key(s, key, k) == seq![s[i]],
        (forall|i: int| 0 <= i < s.len() ==> key(#[trigger] s[i]) != k) ==> with_key(
            s,
            key,
            k,
        ).len() == 0,
    decreases s.len(),
{
    if s.len() > 0 {
        let head = s.drop_last();
        lemma_with_distinct_key(head, key, k);
        if key(s.last()) == k {
            assert forall|i: int| 0 <= i < head.len() implies key(#[trigger] head[i]) != k by {
                assert(key(s[i]) != key(s[s.len() - 1]));
            }
            assert(with_key(s, key, k) =~= seq![s.last()]);
        } else {
            assert forall|i: int| 0 <= i < s.len() && key(#[trigger] s[i]) == k implies with_key(
                s,
                key,
                k,
            ) == seq![s[i]] by {
                assert(head[i] == s[i]);
            }
            if forall|i: int| 0 <= i < s.len() ==> key(#[trigger] s[i]) != k {
                assert forall|i: int| 0 <= i < head.len() implies key(#[trigger] head[i]) != k by {
                    assert(head[i] == s[i]);
                }
            }
        }
    }
}

/// Elements with distinct keys come out in the same order, in whatever order
/// they go in.
pub proof fn order_is_irrelevant<T>(s: Seq<T>, t: Seq<T>, key: spec_fn(T) -> int)
    requires
        s.to_multiset() == t.to_multiset(),
        distinct_keys(s, key),
    ensures
        sort_by(s, key) == sort_by(t, key),
{
    broadcast use vstd::seq_lib::group_to_multiset_ensures;

    s.lemma_multiset_has_no_duplicates();
    t.lemma_multiset_has_no_duplicates_conv();
    assert forall|i: int, j: int| 0 <= i < j < t.len() implies key(#[trigger] t[i]) != key(
        #[trigger] t[j],
    ) by {
        assert(t.to_multiset().count(t[i]) > 0);
        assert(t.to_multiset().count(t[j]) > 0);
        assert(s[s.index_of(t[i])] == t[i]);
        assert(s[s.index_of(t[j])] == t[j]);
    }
    assert forall|k: int| #[trigger] with_key(s, key, k) == with_key(t, key, k) by {
        lemma_with_distinct_key(s, key, k);
        lemma_with_distinct_key(t, key, k);
        if exists|i: int| 0 <= i < s.len() && key(#[trigger] s[i]) == k {
            let i = choose|i: int| 0 <= i < s.len() && key(#[trigger] s[i]) == k;
            assert(s.contains(s[i]));
            assert(s.to_multiset().count(s[i]) > 0);
            assert(t.contains(s[i]));
            let j = t.index_of(s[i]);
            assert(t[j] == s[i]);
            assert(with_key(t, key, k) == seq![t[j]]);
        } else {
            assert forall|j: int| 0 <= j < t.len() implies key(#[trigger] t[j]) != k by {
                assert(t.contains(t[j]));
                assert(t.to_multiset().count(t[j]) > 0);
                assert(s.contains(t[j]));
                let i = s.index_of(t[j]);
                assert(s[i] == t[j]);
            }
            assert(with_key(s, key, k) =~= with_key(t, key, k));
        }
    }
    sort_is_stable(s, key);
    sort_is_stable(t, key);
    assert forall|k: int| #[trigger]
        with_key(sort_by(s, key), key, k) == with_key(sort_by(t, key), key, k) by {
        assert(with_key(s, key, k) == with_key(t, key, k));
    }
    ascending_is_unique(sort_by(s, key), sort_by(t, key), key);
}

/// Sorting leaves a sequence whose keys ascend as it is.
pub proof fn sorted_is_kept<T>(s: Seq<T>, key: spec_fn(T) -> int)
    requires
        ascending(s, key),
    ensures
        sort_by(s, key) == s,
    decreases s.len(),
{
    if s.len() > 0 {
        let head = s.drop_last();
        sorted_is_kept(head, key);
        if head.len() > 0 {
            assert(key(s[s.len() - 2]) <= key(s[s.len() - 1]));
        }
        assert(head.push(s.last()) =~= s);
    }
}

/// The elements with a key are those that a filter for the key keeps.
pub proof fn with_key_is_filter<T>(s: Seq<T>, key: spec_fn(T) -> int, k: int)
    ensures
        with_key(s, key, k) == s.filter(|x: T| key(x) == k),
    decreases s.len(),
{
    reveal(Seq::filter);
    if s.len() > 0 {
        with_key_is_filter(s.drop_last(), key, k);
    }
}

proof fn lemma_insert_keeps_elements<T>(s: Seq<T>, x: T, key: spec_fn(T) -> int)
    ensures
        insert_by(s, x, key).to_multiset() == s.to_multiset().insert(x),
    decreases s.len(),
{
    broadcast use vstd::seq_lib::group_to_multiset_ensures;

    if s.len() > 0 && key(s.last()) > key(x) {
        let head = s.drop_last();
        lemma_insert_keeps_elements(head, x, key);
        assert(head.push(s.last()) =~= s);
        assert(insert_by(s, x, key).to_multiset() =~= s.to_multiset().insert(x));
    }
}

/// Sorting keeps every element as often as it is there.
pub proof fn sort_keeps_elements<T>(s: Seq<T>, key: spec_fn(T) -> int)
    ensures
        sort_by(s, key).to_multiset() == s.to_multiset(),
    decreases s.len(),
{
    broadcast use vstd::seq_lib::group_to_multiset_ensures;

    if s.len() > 0 {
        sort_keeps_elements(s.drop_last(), key);
        lemma_insert_keeps_elements(sort_by(s.drop_last(), key), s.last(), key);
        assert(s.drop_last().push(s.last()) =~= s);
    }
}

} // verus!
