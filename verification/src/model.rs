//! The mathematical model of the container: a sequence of `(key, priority)`
//! entries in ascending key order, and the operations on it that the tree
//! implements.

use vstd::prelude::*;

verus! {

/// One stored element: its key, then its priority.
pub type Entry = (i32, i32);

/// Every key in `s` is smaller than `k`.
pub open spec fn keys_below(s: Seq<Entry>, k: int) -> bool {
    forall|i: int| 0 <= i < s.len() ==> (#[trigger] s[i]).0 < k
}

/// Every key in `s` is greater than `k`.
pub open spec fn keys_above(s: Seq<Entry>, k: int) -> bool {
    forall|i: int| 0 <= i < s.len() ==> (#[trigger] s[i]).0 > k
}

/// Every key in `s` is at most `k`.
pub open spec fn keys_at_most(s: Seq<Entry>, k: int) -> bool {
    keys_below(s, k + 1)
}

/// Every priority in `s` is at most `p`.
pub open spec fn priorities_at_most(s: Seq<Entry>, p: int) -> bool {
    forall|i: int| 0 <= i < s.len() ==> (#[trigger] s[i]).1 <= p
}

/// The keys of `s` are strictly increasing; in particular no key occurs twice.
pub open spec fn increasing(s: Seq<Entry>) -> bool {
    forall|i: int, j: int| 0 <= i < j < s.len() ==> (#[trigger] s[i]).0 < (#[trigger] s[j]).0
}

/// Every key of `a` is smaller than every key of `b`.
pub open spec fn precedes(a: Seq<Entry>, b: Seq<Entry>) -> bool {
    forall|i: int, j: int|
        0 <= i < a.len() && 0 <= j < b.len() ==> (#[trigger] a[i]).0 < (#[trigger] b[j]).0
}

/// Some entry of `s` has the key `k`.
pub open spec fn has_key(s: Seq<Entry>, k: int) -> bool {
    exists|i: int| 0 <= i < s.len() && (#[trigger] s[i]).0 == k
}

/// The set of keys that occur in `s`.
pub open spec fn key_set(s: Seq<Entry>) -> Set<int> {
    Set::new(|k: int| has_key(s, k))
}

/// The number of entries of `s` whose key is smaller than `k`. In an
/// increasing sequence this is the position at which key `k` stands or
/// would stand.
pub open spec fn count_below(s: Seq<Entry>, k: int) -> nat
    decreases s.len(),
{
    if s.len() == 0 {
        0
    } else {
        count_below(s.drop_last(), k) + if s.last().0 < k {
            1nat
        } else {
            0nat
        }
    }
}

/// The entries of `s` that come before the place of key `k + 1`: in an
/// increasing sequence, those with keys up to `k`.
pub open spec fn lower_part(s: Seq<Entry>, k: int) -> Seq<Entry> {
    s.take(count_below(s, k + 1) as int)
}

/// The entries of `s` from the place of key `k + 1` on: in an increasing
/// sequence, those with keys above `k`.
pub open spec fn upper_part(s: Seq<Entry>, k: int) -> Seq<Entry> {
    s.skip(count_below(s, k + 1) as int)
}

/// `s` with the entry `(k, p)` put at the place of key `k`.
pub open spec fn with_entry(s: Seq<Entry>, k: i32, p: i32) -> Seq<Entry> {
    s.insert(count_below(s, k as int) as int, (k, p))
}

/// `s` without the entry at the place of key `k`, if `s` has that key;
/// else `s` itself.
pub open spec fn without_key(s: Seq<Entry>, k: int) -> Seq<Entry> {
    if has_key(s, k) {
        s.remove(count_below(s, k) as int)
    } else {
        s
    }
}

/// The key of rank `rank` in `s`, counting from the last entry (rank 1):
/// in an increasing sequence, from the greatest key. `None` for a rank
/// outside `1..=s.len()`.
pub open spec fn key_at_rank(s: Seq<Entry>, rank: int) -> Option<i32> {
    if 1 <= rank <= s.len() {
        Some(s[s.len() - rank].0)
    } else {
        None
    }
}

/// No two of `pairs` have the same key.
pub open spec fn distinct_keys(pairs: Seq<Entry>) -> bool {
    forall|i: int, j: int|
        0 <= i < j < pairs.len() ==> (#[trigger] pairs[i]).0 != (#[trigger] pairs[j]).0
}

/// What a run of insertions makes of the empty sequence.
pub open spec fn insert_all(pairs: Seq<Entry>) -> Seq<Entry>
    decreases pairs.len(),
{
    if pairs.len() == 0 {
        Seq::empty()
    } else {
        with_entry(insert_all(pairs.drop_last()), pairs.last().0, pairs.last().1)
    }
}

} // verus!
