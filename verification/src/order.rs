//! Stable insertion order: the specification of every sort in the library.
//!
//! `sort_by(s, lt)` is the stable sort of `s` by the strict order `lt`: each
//! element, taken in turn, goes before the first element already placed that
//! it is strictly less than.

use vstd::prelude::*;

verus! {

/// `s` with `x` placed before its first element that `x` is strictly less than.
pub open spec fn insert_by<T>(s: Seq<T>, x: T, lt: spec_fn(T, T) -> bool) -> Seq<T>
    decreases s.len(),
{
    if s.len() == 0 {
        seq![x]
    } else if lt(x, s[0]) {
        seq![x] + s
    } else {
        seq![s[0]] + insert_by(s.drop_first(), x, lt)
    }
}

/// The stable sort of `s` by `lt`.
pub open spec fn sort_by<T>(s: Seq<T>, lt: spec_fn(T, T) -> bool) -> Seq<T>
    decreases s.len(),
{
    if s.len() == 0 {
        s
    } else {
        insert_by(sort_by(s.drop_last(), lt), s.last(), lt)
    }
}

/// No element is strictly less than one before it.
pub open spec fn sorted_by<T>(s: Seq<T>, lt: spec_fn(T, T) -> bool) -> bool {
    forall|i: int, j: int| 0 <= i < j < s.len() ==> !lt(#[trigger] s[j], #[trigger] s[i])
}

/// `lt` is a strict order: irreflexive and transitive.
pub open spec fn strict_order<T>(lt: spec_fn(T, T) -> bool) -> bool {
    &&& forall|a: T| !#[trigger] lt(a, a)
    &&& forall|a: T, b: T, c: T| #[trigger] lt(a, b) && #[trigger] lt(b, c) ==> lt(a, c)
}

/// Inserting at the first strictly greater position is `insert_by`.
pub proof fn lemma_insert_by_at<T>(s: Seq<T>, x: T, lt: spec_fn(T, T) -> bool, k: int)
    requires
        0 <= k <= s.len(),
        forall|i: int| 0 <= i < k ==> !lt(x, #[trigger] s[i]),
        k < s.len() ==> lt(x, s[k]),
    ensures
        insert_by(s, x, lt) == s.insert(k, x),
    decreases s.len(),
{
    if s.len() == 0 {
        assert(s.insert(k, x) =~= seq![x]);
    } else if k == 0 {
        assert(s.insert(0, x) =~= seq![x] + s);
    } else {
        assert(!lt(x, s[0]));
        let t = s.drop_first();
        assert forall|i: int| 0 <= i < k - 1 implies !lt(x, #[trigger] t[i]) by {
            assert(t[i] == s[i + 1]);
        }
        lemma_insert_by_at(t, x, lt, k - 1);
        assert(seq![s[0]] + t.insert(k - 1, x) =~= s.insert(k, x));
    }
}

/// Inserting adds exactly one element.
pub proof fn lemma_insert_by_len<T>(s: Seq<T>, x: T, lt: spec_fn(T, T) -> bool)
    ensures
        insert_by(s, x, lt).len() == s.len() + 1,
    decreases s.len(),
{
    if s.len() > 0 && !lt(x, s[0]) {
        lemma_insert_by_len(s.drop_first(), x, lt);
    }
}

/// Sorting keeps the length.
pub proof fn lemma_sort_by_len<T>(s: Seq<T>, lt: spec_fn(T, T) -> bool)
    ensures
        sort_by(s, lt).len() == s.len(),
    decreases s.len(),
{
    if s.len() > 0 {
        lemma_sort_by_len(s.drop_last(), lt);
        lemma_insert_by_len(sort_by(s.drop_last(), lt), s.last(), lt);
    }
}

/// Inserting into a sorted sequence keeps it sorted.
pub proof fn lemma_insert_by_sorted<T>(s: Seq<T>, x: T, lt: spec_fn(T, T) -> bool)
    requires
        sorted_by(s, lt),
        strict_order(lt),
    ensures
        sorted_by(insert_by(s, x, lt), lt),
    decreases s.len(),
{
    if s.len() == 0 {
    } else if lt(x, s[0]) {
        let r = seq![x] + s;
        assert forall|i: int, j: int| 0 <= i < j < r.len() implies !lt(
            #[trigger] r[j],
            #[trigger] r[i],
        ) by {
            if i == 0 {
                assert(r[j] == s[j - 1]);
                if lt(s[j - 1], x) {
                    assert(lt(s[j - 1], s[0]));
                    if j - 1 > 0 {
                        assert(!lt(s[j - 1], s[0]));
                    } else {
                        assert(!lt(s[0], s[0]));
                    }
                }
            } else {
                assert(r[i] == s[i - 1] && r[j] == s[j - 1]);
            }
        }
    } else {
        let t = s.drop_first();
        assert(sorted_by(t, lt)) by {
            assert forall|i: int, j: int| 0 <= i < j < t.len() implies !lt(
                #[trigger] t[j],
                #[trigger] t[i],
            ) by {
                assert(t[i] == s[i + 1] && t[j] == s[j + 1]);
            }
        }
        lemma_insert_by_sorted(t, x, lt);
        let u = insert_by(t, x, lt);
        lemma_insert_by_len(t, x, lt);
        let r = seq![s[0]] + u;
        assert forall|i: int, j: int| 0 <= i < j < r.len() implies !lt(
            #[trigger] r[j],
            #[trigger] r[i],
        ) by {
            if i == 0 {
                assert(r[j] == u[j - 1]);
                lemma_insert_by_member(t, x, lt, j - 1);
                if u[j - 1] == x {
                } else {
                    let m = choose|m: int| 0 <= m < t.len() && u[j - 1] == t[m];
                    assert(t[m] == s[m + 1]);
                }
            } else {
                assert(r[i] == u[i - 1] && r[j] == u[j - 1]);
            }
        }
    }
}

/// Every element of `insert_by(s, x)` is `x` or an element of `s`.
pub proof fn lemma_insert_by_member<T>(s: Seq<T>, x: T, lt: spec_fn(T, T) -> bool, i: int)
    requires
        0 <= i < s.len() + 1,
    ensures
        insert_by(s, x, lt).len() == s.len() + 1,
        insert_by(s, x, lt)[i] == x || exists|m: int|
            0 <= m < s.len() && insert_by(s, x, lt)[i] == s[m],
    decreases s.len(),
{
    lemma_insert_by_len(s, x, lt);
    if s.len() == 0 {
    } else if lt(x, s[0]) {
        if i > 0 {
            assert(insert_by(s, x, lt)[i] == s[i - 1]);
        }
    } else {
        if i == 0 {
            assert(insert_by(s, x, lt)[0] == s[0]);
        } else {
            let t = s.drop_first();
            lemma_insert_by_member(t, x, lt, i - 1);
            assert(insert_by(s, x, lt)[i] == insert_by(t, x, lt)[i - 1]);
            if insert_by(t, x, lt)[i - 1] != x {
                let m = choose|m: int| 0 <= m < t.len() && insert_by(t, x, lt)[i - 1] == t[m];
                assert(t[m] == s[m + 1]);
            }
        }
    }
}

/// A stable sort's result is sorted.
pub proof fn lemma_sort_by_sorted<T>(s: Seq<T>, lt: spec_fn(T, T) -> bool)
    requires
        strict_order(lt),
    ensures
        sorted_by(sort_by(s, lt), lt),
    decreases s.len(),
{
    if s.len() > 0 {
        lemma_sort_by_sorted(s.drop_last(), lt);
        lemma_insert_by_sorted(sort_by(s.drop_last(), lt), s.last(), lt);
    }
}

/// Every element of a stable sort comes from the sorted sequence.
pub proof fn lemma_sort_by_member<T>(s: Seq<T>, lt: spec_fn(T, T) -> bool, i: int)
    requires
        0 <= i < sort_by(s, lt).len(),
    ensures
        exists|j: int| 0 <= j < s.len() && sort_by(s, lt)[i] == s[j],
    decreases s.len(),
{
    lemma_sort_by_len(s, lt);
    if s.len() > 0 {
        let init = sort_by(s.drop_last(), lt);
        lemma_sort_by_len(s.drop_last(), lt);
        lemma_insert_by_member(init, s.last(), lt, i);
        if sort_by(s, lt)[i] == s.last() {
            assert(s[s.len() - 1] == s.last());
        } else {
            let m = choose|m: int| 0 <= m < init.len() && insert_by(init, s.last(), lt)[i] == init[m];
            lemma_sort_by_member(s.drop_last(), lt, m);
            let j = choose|j: int| 0 <= j < s.drop_last().len() && init[m] == s.drop_last()[j];
            assert(s.drop_last()[j] == s[j]);
        }
    }
}


/// Inserting keeps every element and adds the new one.
pub proof fn lemma_insert_by_keeps<T>(s: Seq<T>, x: T, lt: spec_fn(T, T) -> bool)
    ensures
        insert_by(s, x, lt).contains(x),
        forall|y: T| s.contains(y) ==> #[trigger] insert_by(s, x, lt).contains(y),
    decreases s.len(),
{
    let r = insert_by(s, x, lt);
    if s.len() == 0 {
        assert(r[0] == x);
    } else if lt(x, s[0]) {
        assert(r[0] == x);
        assert forall|y: T| s.contains(y) implies #[trigger] r.contains(y) by {
            let k = choose|k: int| 0 <= k < s.len() && s[k] == y;
            assert(r[k + 1] == s[k]);
        }
    } else {
        let t = s.drop_first();
        lemma_insert_by_keeps(t, x, lt);
        let rt = insert_by(t, x, lt);
        assert(r == seq![s[0]] + rt);
        let k0 = choose|k: int| 0 <= k < rt.len() && rt[k] == x;
        assert(r[k0 + 1] == rt[k0]);
        assert forall|y: T| s.contains(y) implies #[trigger] r.contains(y) by {
            let k = choose|k: int| 0 <= k < s.len() && s[k] == y;
            if k == 0 {
                assert(r[0] == s[0]);
            } else {
                assert(t.len() == s.len() - 1);
                assert(t[k - 1] == s[k]);
                assert(t.contains(y));
                assert(insert_by(t, x, lt).contains(y));
                let m = choose|m: int| 0 <= m < rt.len() && rt[m] == y;
                assert(r[m + 1] == rt[m]);
            }
        }
    }
}

/// Sorting keeps every element.
pub proof fn lemma_sort_by_keeps<T>(s: Seq<T>, lt: spec_fn(T, T) -> bool)
    ensures
        forall|y: T| s.contains(y) ==> #[trigger] sort_by(s, lt).contains(y),
    decreases s.len(),
{
    if s.len() > 0 {
        let init = s.drop_last();
        lemma_sort_by_keeps(init, lt);
        lemma_insert_by_keeps(sort_by(init, lt), s.last(), lt);
        assert forall|y: T| s.contains(y) implies #[trigger] sort_by(s, lt).contains(y) by {
            let k = choose|k: int| 0 <= k < s.len() && s[k] == y;
            if k < s.len() - 1 {
                assert(init[k] == y);
                assert(init.contains(y));
                assert(sort_by(init, lt).contains(y));
            }
        }
    }
}

} // verus!
