//! Working lemmas on sequences of entries: how counts, bounds and the model
//! operations go through a concatenation.

use vstd::prelude::*;
use crate::model::{
    Entry, count_below, has_key, keys_above, keys_below, precedes, priorities_at_most, without_key,
};

verus! {

/// No more keys are counted than there are entries.
pub proof fn lemma_count_bounded(s: Seq<Entry>, k: int)
    ensures
        count_below(s, k) <= s.len(),
    decreases s.len(),
{
    if s.len() > 0 {
        lemma_count_bounded(s.drop_last(), k);
    }
}

/// Where all keys are below `k`, all are counted.
pub proof fn lemma_count_all(s: Seq<Entry>, k: int)
    requires
        keys_below(s, k),
    ensures
        count_below(s, k) == s.len(),
    decreases s.len(),
{
    if s.len() > 0 {
        let init = s.drop_last();
        assert forall|i: int| 0 <= i < init.len() implies (#[trigger] init[i]).0 < k by {
            assert(init[i] == s[i]);
        }
        lemma_count_all(init, k);
        assert(s[s.len() - 1].0 < k);
    }
}

/// Where no key is below `k`, none is counted.
pub proof fn lemma_count_none(s: Seq<Entry>, k: int)
    requires
        keys_above(s, k - 1),
    ensures
        count_below(s, k) == 0,
    decreases s.len(),
{
    if s.len() > 0 {
        let init = s.drop_last();
        assert forall|i: int| 0 <= i < init.len() implies (#[trigger] init[i]).0 > k - 1 by {
            assert(init[i] == s[i]);
        }
        lemma_count_none(init, k);
        assert(s[s.len() - 1].0 > k - 1);
    }
}

/// The count of a concatenation is the sum of the counts of its parts.
pub proof fn lemma_count_concat(a: Seq<Entry>, b: Seq<Entry>, k: int)
    ensures
        count_below(a + b, k) == count_below(a, k) + count_below(b, k),
    decreases b.len(),
{
    if b.len() == 0 {
        assert(a + b =~= a);
    } else {
        assert((a + b).drop_last() =~= a + b.drop_last());
        assert((a + b).last() == b.last());
        lemma_count_concat(a, b.drop_last(), k);
    }
}

/// A key occurs in a concatenation exactly when it occurs in a part.
pub proof fn lemma_has_key_concat(a: Seq<Entry>, b: Seq<Entry>, k: int)
    ensures
        has_key(a + b, k) <==> has_key(a, k) || has_key(b, k),
{
    let s = a + b;
    if has_key(a, k) {
        let i = choose|i: int| 0 <= i < a.len() && (#[trigger] a[i]).0 == k;
        assert(s[i] == a[i]);
    }
    if has_key(b, k) {
        let i = choose|i: int| 0 <= i < b.len() && (#[trigger] b[i]).0 == k;
        assert(s[a.len() + i] == b[i]);
    }
    if has_key(s, k) {
        let i = choose|i: int| 0 <= i < s.len() && (#[trigger] s[i]).0 == k;
        if i < a.len() {
            assert(a[i] == s[i]);
        } else {
            assert(b[i - a.len()] == s[i]);
        }
    }
}

/// A bound on the keys or on the priorities holds of a concatenation
/// exactly when it holds of both parts.
pub proof fn lemma_concat_bounds(a: Seq<Entry>, b: Seq<Entry>, bound: int)
    ensures
        keys_below(a + b, bound) <==> keys_below(a, bound) && keys_below(b, bound),
        keys_above(a + b, bound) <==> keys_above(a, bound) && keys_above(b, bound),
        priorities_at_most(a + b, bound) <==> priorities_at_most(a, bound) && priorities_at_most(
            b,
            bound,
        ),
{
    let s = a + b;
    assert forall|i: int| 0 <= i < a.len() implies #[trigger] a[i] == s[i] by {}
    assert forall|i: int| 0 <= i < b.len() implies #[trigger] b[i] == s[a.len() + i] by {}
    assert forall|i: int| 0 <= i < s.len() implies #[trigger] s[i] == (if i < a.len() {
        a[i]
    } else {
        b[i - a.len()]
    }) by {}
}

/// A sequence made of keys below `k` followed by keys from `k` on parts at
/// the place of `k` into just these two.
pub proof fn lemma_parts_at_place(a: Seq<Entry>, b: Seq<Entry>, k: int)
    requires
        keys_below(a, k),
        keys_above(b, k - 1),
    ensures
        count_below(a + b, k) == a.len(),
        (a + b).take(a.len() as int) == a,
        (a + b).skip(a.len() as int) == b,
{
    lemma_count_concat(a, b, k);
    lemma_count_all(a, k);
    lemma_count_none(b, k);
    assert((a + b).take(a.len() as int) =~= a);
    assert((a + b).skip(a.len() as int) =~= b);
}

/// When `a + [e] + c` precedes `d`, so does its right part `c`, and every
/// key of `d` is above the key of `e`.
pub proof fn lemma_precedes_from_left(a: Seq<Entry>, e: Entry, c: Seq<Entry>, d: Seq<Entry>)
    requires
        precedes(a + seq![e] + c, d),
    ensures
        precedes(c, d),
        keys_above(d, e.0 as int),
{
    let s = a + seq![e] + c;
    assert forall|i: int, j: int| 0 <= i < c.len() && 0 <= j < d.len() implies (#[trigger] c[i]).0
        < (#[trigger] d[j]).0 by {
        assert(s[a.len() + 1 + i] == c[i]);
    }
    assert forall|j: int| 0 <= j < d.len() implies (#[trigger] d[j]).0 > e.0 by {
        assert(s[a.len() as int] == e);
    }
}

/// When `a` precedes `b + [e] + d`, it precedes the left part `b`, and
/// every key of `a` is below the key of `e`.
pub proof fn lemma_precedes_from_right(a: Seq<Entry>, b: Seq<Entry>, e: Entry, d: Seq<Entry>)
    requires
        precedes(a, b + seq![e] + d),
    ensures
        precedes(a, b),
        keys_below(a, e.0 as int),
{
    let s = b + seq![e] + d;
    assert forall|i: int, j: int| 0 <= i < a.len() && 0 <= j < b.len() implies (#[trigger] a[i]).0
        < (#[trigger] b[j]).0 by {
        assert(s[j] == b[j]);
    }
    assert forall|i: int| 0 <= i < a.len() implies (#[trigger] a[i]).0 < e.0 by {
        assert(s[b.len() as int] == e);
    }
}

/// A key that occurs is not counted as below itself, so its place lies
/// inside the sequence.
pub proof fn lemma_count_inside(s: Seq<Entry>, k: int)
    requires
        has_key(s, k),
    ensures
        count_below(s, k) < s.len(),
    decreases s.len(),
{
    let i = choose|i: int| 0 <= i < s.len() && (#[trigger] s[i]).0 == k;
    let init = s.drop_last();
    if i == s.len() - 1 {
        lemma_count_bounded(init, k);
    } else {
        assert(init[i] == s[i]);
        lemma_count_inside(init, k);
    }
}

/// For a key that does not occur, its place is also the place of its
/// successor.
pub proof fn lemma_count_absent(s: Seq<Entry>, k: int)
    requires
        !has_key(s, k),
    ensures
        count_below(s, k + 1) == count_below(s, k),
    decreases s.len(),
{
    if s.len() > 0 {
        let init = s.drop_last();
        assert forall|i: int| 0 <= i < init.len() implies (#[trigger] init[i]).0 != k by {
            assert(init[i] == s[i]);
        }
        lemma_count_absent(init, k);
        assert(s[s.len() - 1].0 != k);
    }
}

/// Taking a key out keeps every bound on keys and priorities, and makes the
/// sequence no longer.
pub proof fn lemma_without_bounds(s: Seq<Entry>, k: int, bound: int)
    ensures
        without_key(s, k).len() <= s.len(),
        keys_below(s, bound) ==> keys_below(without_key(s, k), bound),
        keys_above(s, bound) ==> keys_above(without_key(s, k), bound),
        priorities_at_most(s, bound) ==> priorities_at_most(without_key(s, k), bound),
{
    if has_key(s, k) {
        lemma_count_inside(s, k);
        let n = count_below(s, k) as int;
        let t = s.remove(n);
        assert forall|i: int| 0 <= i < t.len() implies #[trigger] t[i] == (if i < n {
            s[i]
        } else {
            s[i + 1]
        }) by {}
    }
}

/// Taking out the key of the root `e` leaves its two sides.
pub proof fn lemma_without_root(a: Seq<Entry>, e: Entry, c: Seq<Entry>)
    requires
        keys_below(a, e.0 as int),
        keys_above(c, e.0 as int),
    ensures
        without_key(a + seq![e] + c, e.0 as int) == a + c,
{
    let k = e.0 as int;
    let s = a + seq![e] + c;
    assert(s[a.len() as int] == e);
    lemma_count_concat(a + seq![e], c, k);
    lemma_count_concat(a, seq![e], k);
    lemma_count_all(a, k);
    lemma_count_none(seq![e], k);
    lemma_count_none(c, k);
    assert(s.remove(a.len() as int) =~= a + c);
}

/// Taking out a key that lies above all of `a` takes it out of what
/// follows `a`.
pub proof fn lemma_without_after(a: Seq<Entry>, b: Seq<Entry>, k: int)
    requires
        keys_below(a, k),
    ensures
        without_key(a + b, k) == a + without_key(b, k),
{
    lemma_has_key_concat(a, b, k);
    lemma_count_concat(a, b, k);
    lemma_count_all(a, k);
    if has_key(b, k) {
        lemma_count_inside(b, k);
        let j = count_below(b, k) as int;
        assert((a + b).remove(a.len() + j) =~= a + b.remove(j));
    }
}

/// Taking out a key that lies below all of `b` takes it out of what comes
/// before `b`.
pub proof fn lemma_without_before(a: Seq<Entry>, b: Seq<Entry>, k: int)
    requires
        keys_above(b, k),
    ensures
        without_key(a + b, k) == without_key(a, k) + b,
{
    lemma_has_key_concat(a, b, k);
    lemma_count_concat(a, b, k);
    lemma_count_none(b, k);
    if has_key(a, k) {
        lemma_count_inside(a, k);
        let j = count_below(a, k) as int;
        assert((a + b).remove(j) =~= a.remove(j) + b);
    }
}

/// Taking out a key greater than that of the root `e` takes it out of the
/// right side.
pub proof fn lemma_without_in_right(a: Seq<Entry>, e: Entry, c: Seq<Entry>, k: int)
    requires
        keys_below(a, e.0 as int),
        e.0 < k,
    ensures
        without_key(a + seq![e] + c, k) == a + seq![e] + without_key(c, k),
{
    lemma_concat_bounds(a, seq![e], k);
    lemma_without_after(a + seq![e], c, k);
}

/// Taking out a key smaller than that of the root `e` takes it out of the
/// left side.
pub proof fn lemma_without_in_left(a: Seq<Entry>, e: Entry, c: Seq<Entry>, k: int)
    requires
        keys_above(c, e.0 as int),
        k < e.0,
    ensures
        without_key(a + seq![e] + c, k) == without_key(a, k) + seq![e] + c,
{
    let high = seq![e] + c;
    lemma_concat_bounds(seq![e], c, k);
    lemma_without_before(a, high, k);
    assert(a + seq![e] + c =~= a + high);
    assert(without_key(a, k) + seq![e] + c =~= without_key(a, k) + high);
}

} // verus!
