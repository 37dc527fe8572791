//! What holds of the model operations on every increasing sequence.

use vstd::prelude::*;
use crate::lemmas::{
    lemma_count_absent, lemma_count_all, lemma_has_key_concat, lemma_parts_at_place,
    lemma_without_before, lemma_without_bounds,
};
use crate::model::{
    Entry, count_below, distinct_keys, has_key, increasing, insert_all, key_at_rank, key_set,
    keys_above, keys_at_most, keys_below, lower_part, precedes, upper_part, with_entry, without_key,
};

verus! {

/// In an increasing sequence the place of `k` parts the keys below `k` from
/// the keys from `k` on.
pub proof fn lemma_place_parts(s: Seq<Entry>, k: int)
    requires
        increasing(s),
    ensures
        count_below(s, k) <= s.len(),
        keys_below(s.take(count_below(s, k) as int), k),
        keys_above(s.skip(count_below(s, k) as int), k - 1),
    decreases s.len(),
{
    if s.len() > 0 {
        let init = s.drop_last();
        let last = s.last();
        assert(increasing(init)) by {
            assert forall|i: int, j: int| 0 <= i < j < init.len() implies (#[trigger] init[i]).0
                < (#[trigger] init[j]).0 by {
                assert(init[i] == s[i] && init[j] == s[j]);
            }
        }
        lemma_place_parts(init, k);
        if last.0 < k {
            assert forall|i: int| 0 <= i < s.len() implies (#[trigger] s[i]).0 < k by {
                if i < s.len() - 1 {
                    assert(s[i].0 < s[s.len() - 1].0);
                }
            }
            lemma_count_all(s, k);
            assert(s.take(s.len() as int) =~= s);
        } else {
            let n = count_below(init, k) as int;
            assert(s.take(n) =~= init.take(n));
            assert(s.skip(n) =~= init.skip(n).push(last));
            let low = init.skip(n);
            let high = s.skip(n);
            assert forall|i: int| 0 <= i < high.len() implies (#[trigger] high[i]).0 > k - 1 by {
                if i < low.len() {
                    assert(high[i] == low[i]);
                }
            }
        }
    } else {
        assert(s.take(0) =~= s);
        assert(s.skip(0) =~= s);
    }
}

/// In an increasing sequence a key that occurs stands at its place.
pub proof fn lemma_key_at_place(s: Seq<Entry>, i: int)
    requires
        increasing(s),
        0 <= i < s.len(),
    ensures
        count_below(s, s[i].0 as int) == i,
{
    let k = s[i].0 as int;
    let a = s.take(i);
    let b = s.skip(i);
    assert(s =~= a + b);
    assert forall|j: int| 0 <= j < a.len() implies (#[trigger] a[j]).0 < k by {
        assert(a[j] == s[j]);
    }
    assert forall|j: int| 0 <= j < b.len() implies (#[trigger] b[j]).0 > k - 1 by {
        assert(b[j] == s[i + j]);
        if j > 0 {
            assert(s[i].0 < s[i + j].0);
        }
    }
    lemma_parts_at_place(a, b, k);
}

/// Parting and joining again: the two parts of an increasing sequence at
/// `k` hold the keys up to `k` and the keys above `k`, so that the lower
/// part precedes the upper one and the two can be joined; and joined they
/// make up the sequence, entry for entry, with the same keys.
pub proof fn lemma_parts_rejoin(s: Seq<Entry>, k: int)
    requires
        increasing(s),
    ensures
        lower_part(s, k) + upper_part(s, k) == s,
        key_set(lower_part(s, k) + upper_part(s, k)) == key_set(s),
        keys_at_most(lower_part(s, k), k),
        keys_above(upper_part(s, k), k),
        precedes(lower_part(s, k), upper_part(s, k)),
{
    lemma_place_parts(s, k + 1);
    assert(lower_part(s, k) + upper_part(s, k) =~= s);
}

/// Putting a new key into an increasing sequence keeps it increasing, makes
/// it longer by one, and adds just that key to its keys.
pub proof fn lemma_with_entry(s: Seq<Entry>, k: i32, p: i32)
    requires
        increasing(s),
        !has_key(s, k as int),
    ensures
        increasing(with_entry(s, k, p)),
        with_entry(s, k, p).len() == s.len() + 1,
        with_entry(s, k, p)[count_below(s, k as int) as int] == (k, p),
        forall|j: int| has_key(with_entry(s, k, p), j) <==> has_key(s, j) || j == k,
{
    lemma_place_parts(s, k as int);
    lemma_count_absent(s, k as int);
    let n = count_below(s, k as int) as int;
    let t = with_entry(s, k, p);
    let a = s.take(n);
    let b = s.skip(n);
    assert forall|i: int| 0 <= i < b.len() implies (#[trigger] b[i]).0 > k by {
        assert(b[i] == s[n + i]);
    }
    assert forall|i: int| 0 <= i < t.len() implies #[trigger] t[i] == (if i < n {
        s[i]
    } else if i == n {
        (k, p)
    } else {
        s[i - 1]
    }) by {}
    assert forall|i: int, j: int| 0 <= i < j < t.len() implies (#[trigger] t[i]).0
        < (#[trigger] t[j]).0 by {
        if i < n {
            assert(a[i] == s[i]);
        } else if i > n {
            assert(b[i - 1 - n] == s[i - 1]);
        }
        if j < n {
            assert(a[j] == s[j]);
        } else if j > n {
            assert(b[j - 1 - n] == s[j - 1]);
        }
    }
    assert forall|j: int| has_key(t, j) <==> has_key(s, j) || j == k by {
        if has_key(s, j) {
            let i = choose|i: int| 0 <= i < s.len() && (#[trigger] s[i]).0 == j;
            if i < n {
                assert(t[i] == s[i]);
            } else {
                assert(t[i + 1] == s[i]);
            }
        }
        if j == k {
            assert(t[n] == (k, p));
        }
        if has_key(t, j) && j != k {
            let i = choose|i: int| 0 <= i < t.len() && (#[trigger] t[i]).0 == j;
            if i < n {
                assert(s[i] == t[i]);
            } else {
                assert(s[i - 1] == t[i]);
            }
        }
    }
}

/// Taking a key out of an increasing sequence keeps it increasing and takes
/// just that key from its keys; the sequence gets shorter by one if it had
/// the key, and stays as it is if not.
pub proof fn lemma_without_key(s: Seq<Entry>, k: int)
    requires
        increasing(s),
    ensures
        increasing(without_key(s, k)),
        without_key(s, k).len() == s.len() - (if has_key(s, k) {
            1int
        } else {
            0int
        }),
        !has_key(s, k) ==> without_key(s, k) == s,
        forall|j: int| has_key(without_key(s, k), j) <==> has_key(s, j) && j != k,
{
    if has_key(s, k) {
        let i = choose|i: int| 0 <= i < s.len() && (#[trigger] s[i]).0 == k;
        lemma_key_at_place(s, i);
        let t = s.remove(i);
        assert forall|j: int| 0 <= j < t.len() implies #[trigger] t[j] == (if j < i {
            s[j]
        } else {
            s[j + 1]
        }) by {}
        assert forall|a: int, b: int| 0 <= a < b < t.len() implies (#[trigger] t[a]).0
            < (#[trigger] t[b]).0 by {
            let a0 = if a < i {
                a
            } else {
                a + 1
            };
            let b0 = if b < i {
                b
            } else {
                b + 1
            };
            assert(s[a0].0 < s[b0].0);
        }
        assert forall|j: int| has_key(t, j) <==> has_key(s, j) && j != k by {
            if has_key(s, j) && j != k {
                let m = choose|m: int| 0 <= m < s.len() && (#[trigger] s[m]).0 == j;
                if m < i {
                    assert(t[m] == s[m]);
                } else {
                    assert(t[m - 1] == s[m]);
                }
            }
            if has_key(t, j) {
                let m = choose|m: int| 0 <= m < t.len() && (#[trigger] t[m]).0 == j;
                let m0 = if m < i {
                    m
                } else {
                    m + 1
                };
                assert(s[m0] == t[m]);
                if m0 < i {
                    assert(s[m0].0 < s[i].0);
                } else {
                    assert(s[i].0 < s[m0].0);
                }
            }
        }
    }
}

/// Putting a key into an increasing sequence from which that key was
/// taken out first: the entry comes to stand between the keys below it
/// and the keys above it, the sequence stays increasing, and it grows by
/// one exactly when the key is new.
pub proof fn lemma_replaced_entry(s: Seq<Entry>, k: i32, p: i32)
    requires
        increasing(s),
    ensures
        keys_below(without_key(lower_part(s, k as int), k as int), k as int),
        keys_above(upper_part(s, k as int), k as int),
        without_key(lower_part(s, k as int), k as int) + upper_part(s, k as int) == without_key(
            s,
            k as int,
        ),
        with_entry(without_key(s, k as int), k, p) == without_key(
            lower_part(s, k as int),
            k as int,
        ) + seq![(k, p)] + upper_part(s, k as int),
        increasing(with_entry(without_key(s, k as int), k, p)),
        with_entry(without_key(s, k as int), k, p).len() == s.len() + (if has_key(s, k as int) {
            0int
        } else {
            1int
        }),
{
    let lower = lower_part(s, k as int);
    let high = upper_part(s, k as int);
    let low = without_key(lower, k as int);
    let rest = without_key(s, k as int);
    lemma_parts_rejoin(s, k as int);
    assert(increasing(lower)) by {
        assert forall|i: int, j: int| 0 <= i < j < lower.len() implies (#[trigger] lower[i]).0
            < (#[trigger] lower[j]).0 by {
            assert(lower[i] == s[i] && lower[j] == s[j]);
        }
    }
    lemma_without_key(lower, k as int);
    lemma_without_bounds(lower, k as int, k + 1);
    assert(keys_below(low, k as int)) by {
        assert forall|i: int| 0 <= i < low.len() implies (#[trigger] low[i]).0 < k by {
            assert(low[i].0 < k + 1);
            assert(!has_key(low, k as int));
        }
    }
    lemma_without_before(lower, high, k as int);
    lemma_parts_at_place(low, high, k as int);
    lemma_without_key(s, k as int);
    lemma_with_entry(rest, k, p);
    assert(rest.insert(low.len() as int, (k, p)) =~= low + seq![(k, p)] + high);
}

/// Ranks count down from the greatest key: in an increasing sequence the
/// key of rank `rank` stands `rank` places from the end, with exactly the
/// `rank - 1` keys behind it above it; and the rank one beyond the length
/// has no key.
pub proof fn lemma_rank(s: Seq<Entry>, rank: int)
    requires
        increasing(s),
        1 <= rank <= s.len(),
    ensures
        key_at_rank(s, rank) == Some(s[s.len() - rank].0),
        count_below(s, s[s.len() - rank].0 as int) == s.len() - rank,
        forall|i: int|
            0 <= i < s.len() ==> ((#[trigger] s[i]).0 > s[s.len() - rank].0 <==> i > s.len()
                - rank),
        key_at_rank(s, s.len() as int + 1) == None::<i32>,
{
    lemma_key_at_place(s, s.len() - rank);
    let pos = s.len() - rank;
    assert forall|i: int| 0 <= i < s.len() implies ((#[trigger] s[i]).0 > s[pos].0 <==> i
        > pos) by {
        if i < pos {
            assert(s[i].0 < s[pos].0);
        } else if i > pos {
            assert(s[pos].0 < s[i].0);
        }
    }
}

/// Inserting `n` pairs with distinct keys, one after the other, into the
/// empty sequence gives an increasing sequence of length `n` with just
/// their keys; and each key is new when its turn comes.
pub proof fn lemma_size_after_inserts(pairs: Seq<Entry>)
    requires
        distinct_keys(pairs),
    ensures
        insert_all(pairs).len() == pairs.len(),
        increasing(insert_all(pairs)),
        forall|j: int| has_key(insert_all(pairs), j) <==> has_key(pairs, j),
        pairs.len() > 0 ==> !has_key(insert_all(pairs.drop_last()), pairs.last().0 as int),
    decreases pairs.len(),
{
    if pairs.len() > 0 {
        let init = pairs.drop_last();
        let last = pairs.last();
        assert(distinct_keys(init)) by {
            assert forall|i: int, j: int| 0 <= i < j < init.len() implies (#[trigger] init[i]).0
                != (#[trigger] init[j]).0 by {
                assert(init[i] == pairs[i] && init[j] == pairs[j]);
            }
        }
        lemma_size_after_inserts(init);
        let done = insert_all(init);
        if has_key(init, last.0 as int) {
            let i = choose|i: int| 0 <= i < init.len() && (#[trigger] init[i]).0 == last.0;
            assert(pairs[i] == init[i]);
            assert(pairs[i].0 != pairs[pairs.len() - 1].0);
        }
        lemma_with_entry(done, last.0, last.1);
        assert forall|j: int| has_key(insert_all(pairs), j) <==> has_key(pairs, j) by {
            assert(pairs =~= init + seq![last]);
            lemma_has_key_concat(init, seq![last], j);
            if j == last.0 {
                assert(seq![last][0].0 == j);
            }
        }
    }
}

} // verus!
