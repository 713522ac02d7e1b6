//! Sums over sequences, and searches in them.

use vstd::prelude::*;

verus! {

/// The sum of `f` over the elements of `s`.
pub open spec fn total<T>(s: Seq<T>, f: spec_fn(T) -> int) -> int
    decreases s.len(),
{
    if s.len() == 0 {
        0
    } else {
        total(s.drop_last(), f) + f(s.last())
    }
}

/// The index of the last element of `s` that `p` holds of.
pub open spec fn last_where<T>(s: Seq<T>, p: spec_fn(T) -> bool) -> Option<int>
    decreases s.len(),
{
    if s.len() == 0 {
        None
    } else if p(s.last()) {
        Some(s.len() - 1)
    } else {
        last_where(s.drop_last(), p)
    }
}

/// An element at the end adds its part to a sum.
pub proof fn total_push<T>(s: Seq<T>, x: T, f: spec_fn(T) -> int)
    ensures
        total(s.push(x), f) == total(s, f) + f(x),
{
    assert(s.push(x).drop_last() =~= s);
}

/// An element that leaves takes its part out of a sum.
pub proof fn total_remove<T>(s: Seq<T>, i: int, f: spec_fn(T) -> int)
    requires
        0 <= i < s.len(),
    ensures
        total(s.remove(i), f) == total(s, f) - f(s[i]),
    decreases s.len(),
{
    if i == s.len() - 1 {
        assert(s.remove(i) =~= s.drop_last());
    } else {
        total_remove(s.drop_last(), i, f);
        assert(s.remove(i).drop_last() =~= s.drop_last().remove(i));
        assert(s.remove(i).last() == s.last());
    }
}

/// An element that changes changes a sum by the difference.
pub proof fn total_update<T>(s: Seq<T>, i: int, x: T, f: spec_fn(T) -> int)
    requires
        0 <= i < s.len(),
    ensures
        total(s.update(i, x), f) == total(s, f) - f(s[i]) + f(x),
    decreases s.len(),
{
    if i == s.len() - 1 {
        assert(s.update(i, x).drop_last() =~= s.drop_last());
    } else {
        total_update(s.drop_last(), i, x, f);
        assert(s.update(i, x).drop_last() =~= s.drop_last().update(i, x));
        assert(s.update(i, x).last() == s.last());
    }
}

/// A sum of parts that are not negative is not negative, and none of the parts
/// is greater than it.
pub proof fn total_bounds<T>(s: Seq<T>, f: spec_fn(T) -> int)
    requires
        forall|i: int| 0 <= i < s.len() ==> f(#[trigger] s[i]) >= 0,
    ensures
        total(s, f) >= 0,
        forall|i: int| 0 <= i < s.len() ==> f(#[trigger] s[i]) <= total(s, f),
    decreases s.len(),
{
    if s.len() > 0 {
        let rest = s.drop_last();
        assert forall|i: int| 0 <= i < rest.len() implies f(#[trigger] rest[i]) >= 0 by {
            assert(rest[i] == s[i]);
        }
        total_bounds(rest, f);
        assert(f(s[s.len() - 1]) >= 0);
        assert forall|i: int| 0 <= i < s.len() implies f(#[trigger] s[i]) <= total(s, f) by {
            if i < rest.len() {
                assert(rest[i] == s[i]);
            }
        }
    }
}

/// A sum of positive parts is at least the number of the parts.
pub proof fn total_counts<T>(s: Seq<T>, f: spec_fn(T) -> int)
    requires
        forall|i: int| 0 <= i < s.len() ==> f(#[trigger] s[i]) >= 1,
    ensures
        total(s, f) >= s.len(),
    decreases s.len(),
{
    if s.len() > 0 {
        let rest = s.drop_last();
        assert forall|i: int| 0 <= i < rest.len() implies f(#[trigger] rest[i]) >= 1 by {
            assert(rest[i] == s[i]);
        }
        total_counts(rest, f);
        assert(f(s[s.len() - 1]) >= 1);
    }
}

/// The sum of the same part for each element.
pub proof fn total_constant<T>(s: Seq<T>, f: spec_fn(T) -> int, c: int)
    requires
        forall|i: int| 0 <= i < s.len() ==> f(#[trigger] s[i]) == c,
    ensures
        total(s, f) == c * s.len(),
    decreases s.len(),
{
    if s.len() > 0 {
        let rest = s.drop_last();
        assert forall|i: int| 0 <= i < rest.len() implies f(#[trigger] rest[i]) == c by {
            assert(rest[i] == s[i]);
        }
        total_constant(rest, f, c);
        assert(f(s[s.len() - 1]) == c);
        assert(c * rest.len() + c == c * s.len()) by (nonlinear_arith)
            requires
                rest.len() + 1 == s.len(),
        ;
    }
}

/// A sum in which one element counts one and every other nothing.
pub proof fn total_single<T>(s: Seq<T>, f: spec_fn(T) -> int, k: int)
    requires
        0 <= k < s.len(),
        f(s[k]) == 1,
        forall|i: int| 0 <= i < s.len() && i != k ==> f(#[trigger] s[i]) == 0,
    ensures
        total(s, f) == 1,
{
    let rest = s.remove(k);
    assert forall|i: int| 0 <= i < rest.len() implies f(#[trigger] rest[i]) == 0 by {
        if i < k {
            assert(rest[i] == s[i]);
        } else {
            assert(rest[i] == s[i + 1]);
        }
    }
    total_constant(rest, f, 0);
    total_remove(s, k, f);
}

/// What `last_where` finds lies in the sequence, and `p` holds of it and of
/// nothing behind it. It finds nothing if and only if `p` holds of nothing.
pub proof fn last_where_is_last<T>(s: Seq<T>, p: spec_fn(T) -> bool)
    ensures
        match last_where(s, p) {
            Some(k) => {
                &&& 0 <= k < s.len()
                &&& p(s[k])
                &&& forall|j: int| k < j < s.len() ==> !p(#[trigger] s[j])
            },
            None => forall|j: int| 0 <= j < s.len() ==> !p(#[trigger] s[j]),
        },
    decreases s.len(),
{
    if s.len() > 0 && !p(s.last()) {
        let rest = s.drop_last();
        last_where_is_last(rest, p);
        match last_where(rest, p) {
            Some(k) => {
                assert forall|j: int| k < j < s.len() implies !p(#[trigger] s[j]) by {
                    if j < rest.len() {
                        assert(!p(rest[j]));
                    }
                }
            },
            None => {
                assert forall|j: int| 0 <= j < s.len() implies !p(#[trigger] s[j]) by {
                    if j < rest.len() {
                        assert(!p(rest[j]));
                    }
                }
            },
        }
    }
}

/// An element that `p` holds of, with none such behind it, is what `last_where` finds.
pub proof fn last_where_found<T>(s: Seq<T>, p: spec_fn(T) -> bool, k: int)
    requires
        0 <= k < s.len(),
        p(s[k]),
        forall|j: int| k < j < s.len() ==> !p(#[trigger] s[j]),
    ensures
        last_where(s, p) == Some(k),
{
    last_where_is_last(s, p);
    match last_where(s, p) {
        Some(m) => {
            if m < k {
                assert(!p(s[k]));
            } else if m > k {
                assert(!p(s[m]));
            }
        },
        None => {
            assert(!p(s[k]));
        },
    }
}

/// Where `p` holds of nothing, `last_where` finds nothing.
pub proof fn last_where_missing<T>(s: Seq<T>, p: spec_fn(T) -> bool)
    requires
        forall|j: int| 0 <= j < s.len() ==> !p(#[trigger] s[j]),
    ensures
        last_where(s, p) is None,
{
    last_where_is_last(s, p);
    if let Some(m) = last_where(s, p) {
        assert(!p(s[m]));
    }
}

} // verus!
