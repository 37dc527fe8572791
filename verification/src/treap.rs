//! The treap: its tree of nodes, what makes it well-formed, and the
//! operations that part, join, search and change it.

use vstd::prelude::*;
use crate::laws::{lemma_replaced_entry, lemma_with_entry, lemma_without_key};
use crate::lemmas::{
    lemma_concat_bounds, lemma_parts_at_place, lemma_precedes_from_left,
    lemma_precedes_from_right, lemma_without_bounds, lemma_without_in_left,
    lemma_without_in_right, lemma_without_root,
};
use crate::model::{
    Entry, has_key, increasing, key_at_rank, keys_above, keys_at_most, keys_below, lower_part,
    precedes, priorities_at_most, upper_part, with_entry, without_key,
};

verus! {

/// A treap: a binary search tree on keys that is a max-heap on priorities.
///
/// `Node(key, priority, size, left, right)` stores one key; `Nil` is the
/// empty tree.
#[derive(Debug, PartialEq, Eq)]
pub enum Treap {
    Node(i32, i32, usize, Box<Treap>, Box<Treap>),
    Nil,
}

impl View for Treap {
    type V = Seq<Entry>;

    /// The entries of the tree, read from left to right.
    open spec fn view(&self) -> Seq<Entry> {
        self.entries()
    }
}

impl Treap {
    /// The `(key, priority)` pairs of the tree in in-order: left subtree,
    /// root, right subtree.
    pub open spec fn entries(self) -> Seq<Entry>
        decreases self,
    {
        match self {
            Treap::Nil => Seq::empty(),
            Treap::Node(x, y, _, l, r) => l.entries() + seq![(x, y)] + r.entries(),
        }
    }

    /// The size recorded at the root: the stored field of a node, 0 for `Nil`.
    pub open spec fn recorded(self) -> nat {
        match self {
            Treap::Nil => 0,
            Treap::Node(_, _, sz, _, _) => sz as nat,
        }
    }

    /// The entry at the root, if there is one.
    pub open spec fn root(self) -> Option<Entry> {
        match self {
            Treap::Nil => None,
            Treap::Node(x, y, _, _, _) => Some((x, y)),
        }
    }

    /// Of two roots the one of higher priority, and the second where the
    /// priorities are equal; of a root and none, the root.
    pub open spec fn higher(first: Option<Entry>, second: Option<Entry>) -> Option<Entry> {
        match (first, second) {
            (Some(a), Some(b)) => if a.1 > b.1 {
                first
            } else {
                second
            },
            (Some(_), None) => first,
            (None, _) => second,
        }
    }

    /// The root's priority is at most `p`; the empty tree has no root to
    /// bound.
    pub open spec fn capped(self, p: int) -> bool {
        match self {
            Treap::Nil => true,
            Treap::Node(_, q, _, _, _) => q <= p,
        }
    }

    /// Search order: at every node, the keys to its left are smaller than
    /// its key and the keys to its right are greater.
    pub open spec fn bst(self) -> bool
        decreases self,
    {
        match self {
            Treap::Nil => true,
            Treap::Node(x, _, _, l, r) => {
                &&& l.bst()
                &&& r.bst()
                &&& keys_below(l.entries(), x as int)
                &&& keys_above(r.entries(), x as int)
            },
        }
    }

    /// Heap order: no node has a child of higher priority.
    pub open spec fn heap(self) -> bool
        decreases self,
    {
        match self {
            Treap::Nil => true,
            Treap::Node(_, y, _, l, r) => {
                &&& l.heap()
                &&& r.heap()
                &&& l.capped(y as int)
                &&& r.capped(y as int)
            },
        }
    }

    /// Ties lean left: no node has a right child of its own priority. In
    /// heap order this leaves one shape for the entries of a tree: the
    /// root is the last of the entries of highest priority.
    pub open spec fn tie_ordered(self) -> bool
        decreases self,
    {
        match self {
            Treap::Nil => true,
            Treap::Node(_, y, _, l, r) => {
                &&& l.tie_ordered()
                &&& r.tie_ordered()
                &&& r.capped(y - 1)
            },
        }
    }

    /// Size bookkeeping: every node records one more than its children
    /// record together.
    pub open spec fn sized(self) -> bool
        decreases self,
    {
        match self {
            Treap::Nil => true,
            Treap::Node(_, _, sz, l, r) => {
                &&& l.sized()
                &&& r.sized()
                &&& sz == 1 + l.recorded() + r.recorded()
            },
        }
    }

    /// A well-formed treap keeps search order, heap order and its sizes.
    pub open spec fn wf(self) -> bool {
        self.bst() && self.heap() && self.sized()
    }

    /// The number of nodes on the longest way from the root down; 0 for the
    /// empty tree.
    pub open spec fn height(self) -> nat
        decreases self,
    {
        match self {
            Treap::Nil => 0,
            Treap::Node(_, _, _, l, r) => 1 + if l.height() >= r.height() {
                l.height()
            } else {
                r.height()
            },
        }
    }

    /// A node with key `x`, priority `y` and the two children, which
    /// records the size that follows from theirs. Whether the node is in
    /// search order and heap order is up to the children it is given.
    pub fn new(x: i32, y: i32, left: Box<Treap>, right: Box<Treap>) -> (t: Treap)
        requires
            1 + left.recorded() + right.recorded() <= usize::MAX,
        ensures
            t == Treap::Node(
                x,
                y,
                (1 + left.recorded() + right.recorded()) as usize,
                left,
                right,
            ),
    {
        let mut t = Treap::Node(x, y, 1, left, right);
        t.update_size();
        t
    }

    /// The size that the root records: in a treap that keeps its sizes, the
    /// number of keys.
    pub fn size(&self) -> (n: usize)
        ensures
            n == self.recorded(),
            self.sized() ==> n == self@.len(),
    {
        proof {
            if self.sized() {
                self.lemma_recorded_is_len();
            }
        }
        match self {
            Treap::Nil => 0,
            Treap::Node(_, _, sz, ..) => *sz,
        }
    }

    /// Sets the size at the root to one more than the two children record,
    /// and returns it. The empty tree stays empty, of size 0.
    pub fn update_size(&mut self) -> (n: usize)
        requires
            *old(self) matches Treap::Node(_, _, _, l, r) ==> 1 + l.recorded() + r.recorded()
                <= usize::MAX,
        ensures
            n == final(self).recorded(),
            *final(self) == match *old(self) {
                Treap::Nil => Treap::Nil,
                Treap::Node(x, y, _, l, r) => Treap::Node(
                    x,
                    y,
                    (1 + l.recorded() + r.recorded()) as usize,
                    l,
                    r,
                ),
            },
    {
        match self {
            Treap::Nil => 0,
            Treap::Node(_, _, size, left, right) => {
                *size = 1 + left.size() + right.size();
                *size
            },
        }
    }

    /// Parts the treap at `k`: the first result takes the entries with keys
    /// up to `k`, the second the entries with greater keys. No entry is lost
    /// or made twice, and both results are well-formed.
    pub fn split(self, k: i32) -> (parts: (Treap, Treap))
        requires
            self.wf(),
        ensures
            parts.0.wf(),
            parts.1.wf(),
            parts.0@ == lower_part(self@, k as int),
            parts.1@ == upper_part(self@, k as int),
            parts.0@ + parts.1@ == self@,
            parts.0@.len() + parts.1@.len() == self@.len() <= usize::MAX,
            keys_at_most(parts.0@, k as int),
            keys_above(parts.1@, k as int),
            precedes(parts.0@, parts.1@),
            self.tie_ordered() ==> parts.0.tie_ordered() && parts.1.tie_ordered(),
        decreases self,
    {
        proof {
            self.lemma_recorded_is_len();
        }
        match self {
            Treap::Nil => {
                assert(self@.take(0) =~= self@ && self@.skip(0) =~= self@);
                (Treap::Nil, Treap::Nil)
            },
            Treap::Node(x, y, _, left, right) => {
                proof {
                    self.lemma_recorded_is_len();
                    left.lemma_recorded_is_len();
                    right.lemma_recorded_is_len();
                }
                if x <= k {
                    let (l, r) = right.split(k);
                    proof {
                        l.lemma_recorded_is_len();
                        right.lemma_heap_bounds(y as int);
                        lemma_concat_bounds(l@, r@, y as int);
                        lemma_concat_bounds(l@, r@, x as int);
                        l.lemma_bounds_cap(y as int);
                        if self.tie_ordered() {
                            right.lemma_heap_bounds(y - 1);
                            lemma_concat_bounds(l@, r@, y - 1);
                            l.lemma_bounds_cap(y - 1);
                        }
                    }
                    let t = Treap::new(x, y, left, Box::new(l));
                    proof {
                        assert(t@ + r@ =~= self@);
                        lemma_concat_bounds(left@ + seq![(x, y)], l@, k + 1);
                        lemma_concat_bounds(left@, seq![(x, y)], k + 1);
                        lemma_parts_at_place(t@, r@, k + 1);
                    }
                    (t, r)
                } else {
                    let (l, r) = left.split(k);
                    proof {
                        r.lemma_recorded_is_len();
                        left.lemma_heap_bounds(y as int);
                        lemma_concat_bounds(l@, r@, y as int);
                        lemma_concat_bounds(l@, r@, x as int);
                        r.lemma_bounds_cap(y as int);
                    }
                    let t = Treap::new(x, y, Box::new(r), right);
                    proof {
                        assert(l@ + t@ =~= self@);
                        lemma_concat_bounds(r@ + seq![(x, y)], right@, k as int);
                        lemma_concat_bounds(r@, seq![(x, y)], k as int);
                        lemma_parts_at_place(l@, t@, k + 1);
                    }
                    (l, t)
                }
            },
        }
    }

    /// Joins two treaps of which the first holds the smaller keys. The root
    /// of higher priority becomes the root of the result; of two equal
    /// priorities the second tree's root wins, so that ties go on leaning
    /// left where they did.
    pub fn merge(t1: Treap, t2: Treap) -> (t: Treap)
        requires
            t1.wf(),
            t2.wf(),
            precedes(t1@, t2@),
            t1@.len() + t2@.len() <= usize::MAX,
        ensures
            t.wf(),
            t@ == t1@ + t2@,
            t.root() == Self::higher(t1.root(), t2.root()),
            t1.tie_ordered() && t2.tie_ordered() ==> t.tie_ordered(),
        decreases t1@.len() + t2@.len(),
    {
        match (t1, t2) {
            (Treap::Nil, Treap::Nil) => Treap::Nil,
            (t, Treap::Nil) => t,
            (Treap::Nil, t) => t,
            (Treap::Node(lx, ly, _, ll, lr), Treap::Node(rx, ry, _, rl, rr)) => {
                proof {
                    t1.lemma_recorded_is_len();
                    t2.lemma_recorded_is_len();
                    ll.lemma_recorded_is_len();
                    lr.lemma_recorded_is_len();
                    rl.lemma_recorded_is_len();
                    rr.lemma_recorded_is_len();
                }
                if ly > ry {
                    let t2 = Treap::new(rx, ry, rl, rr);
                    proof {
                        lemma_precedes_from_left(ll@, (lx, ly), lr@, t2@);
                    }
                    let m = Treap::merge(*lr, t2);
                    proof {
                        m.lemma_recorded_is_len();
                        t2.lemma_heap_bounds(ly as int);
                        lr.lemma_heap_bounds(ly as int);
                        lemma_concat_bounds(lr@, t2@, ly as int);
                        lemma_concat_bounds(lr@, t2@, lx as int);
                        m.lemma_bounds_cap(ly as int);
                        if t1.tie_ordered() && t2.tie_ordered() {
                            t2.lemma_heap_bounds(ly - 1);
                            lr.lemma_heap_bounds(ly - 1);
                            lemma_concat_bounds(lr@, t2@, ly - 1);
                            m.lemma_bounds_cap(ly - 1);
                        }
                    }
                    let t = Treap::new(lx, ly, ll, Box::new(m));
                    assert(t@ =~= t1@ + t2@);
                    t
                } else {
                    let t1 = Treap::new(lx, ly, ll, lr);
                    proof {
                        lemma_precedes_from_right(t1@, rl@, (rx, ry), rr@);
                    }
                    let m = Treap::merge(t1, *rl);
                    proof {
                        m.lemma_recorded_is_len();
                        t1.lemma_heap_bounds(ry as int);
                        rl.lemma_heap_bounds(ry as int);
                        lemma_concat_bounds(t1@, rl@, ry as int);
                        lemma_concat_bounds(t1@, rl@, rx as int);
                        m.lemma_bounds_cap(ry as int);
                    }
                    let t = Treap::new(rx, ry, Box::new(m), rr);
                    assert(t@ =~= t1@ + t2@);
                    t
                }
            },
        }
    }

    /// Puts in the key `x` with priority `y`, at its place among the keys:
    /// between the keys below `x` and the keys above it. An entry that has
    /// the key already is replaced, so that no key comes to stand twice.
    /// The treap must have room for a new entry.
    pub fn push(self, x: i32, y: i32) -> (t: Treap)
        requires
            self.wf(),
            self@.len() < usize::MAX || has_key(self@, x as int),
        ensures
            t.wf(),
            increasing(t@),
            t@ == with_entry(without_key(self@, x as int), x, y),
            t@.len() == self@.len() + (if has_key(self@, x as int) {
                0int
            } else {
                1int
            }),
            forall|j: int| has_key(t@, j) <==> has_key(self@, j) || j == x,
            self.tie_ordered() ==> t.tie_ordered(),
    {
        let node = Treap::new(x, y, Box::new(Treap::Nil), Box::new(Treap::Nil));
        proof {
            assert(Treap::Nil.wf() && Treap::Nil.tie_ordered());
            assert(Treap::Nil@ =~= Seq::<Entry>::empty());
            assert(node@ =~= seq![(x, y)]);
            self.lemma_bst_increasing();
            self.lemma_recorded_is_len();
            lemma_replaced_entry(self@, x, y);
            lemma_without_key(self@, x as int);
            lemma_with_entry(without_key(self@, x as int), x, y);
        }
        match self {
            Treap::Nil => {
                assert(with_entry(without_key(self@, x as int), x, y) =~= seq![(x, y)]);
                node
            },
            _ => {
                let (l, r) = self.split(x);
                let l = l.del(x);
                let left = Treap::merge(l, node);
                Treap::merge(left, r)
            },
        }
    }

    /// The key of rank `k`, counting from the greatest key, which has rank 1;
    /// `None` when `k` is 0 or exceeds the number of keys. The search goes
    /// by the recorded sizes alone: where only they are kept, rank 1 is the
    /// last entry in order.
    pub fn get(&self, k: usize) -> (found: Option<i32>)
        requires
            self.sized(),
        ensures
            found == key_at_rank(self@, k as int),
        decreases self,
    {
        match self {
            Treap::Nil => None,
            Treap::Node(x, _, _, l, r) => {
                proof {
                    self.lemma_recorded_is_len();
                    l.lemma_recorded_is_len();
                    r.lemma_recorded_is_len();
                }
                if r.size() + 1 < k {
                    return l.get(k - r.size() - 1);
                }
                if r.size() + 1 == k {
                    return Some(*x);
                }
                return r.get(k);
            },
        }
    }

    /// Takes the key `k` out, with the sizes above it put right; a treap
    /// without that key keeps its entries.
    pub fn del(self, k: i32) -> (t: Treap)
        requires
            self.wf(),
        ensures
            t.wf(),
            increasing(t@),
            t@ == without_key(self@, k as int),
            !has_key(self@, k as int) ==> t@ == self@,
            has_key(self@, k as int) ==> t@.len() == self@.len() - 1,
            forall|j: int| has_key(t@, j) <==> has_key(self@, j) && j != k,
            self.tie_ordered() ==> t.tie_ordered(),
        decreases self,
    {
        proof {
            self.lemma_bst_increasing();
            lemma_without_key(self@, k as int);
        }
        match self {
            Treap::Nil => Treap::Nil,
            Treap::Node(x, y, _, l, r) => {
                proof {
                    self.lemma_recorded_is_len();
                    l.lemma_recorded_is_len();
                    r.lemma_recorded_is_len();
                }
                if x == k {
                    proof {
                        lemma_without_root(l@, (x, y), r@);
                    }
                    return Treap::merge(*l, *r);
                }
                if x < k {
                    let rest = r.del(k);
                    proof {
                        rest.lemma_recorded_is_len();
                        r.lemma_heap_bounds(y as int);
                        lemma_without_bounds(r@, k as int, y as int);
                        lemma_without_bounds(r@, k as int, x as int);
                        rest.lemma_bounds_cap(y as int);
                        lemma_without_in_right(l@, (x, y), r@, k as int);
                        if self.tie_ordered() {
                            r.lemma_heap_bounds(y - 1);
                            lemma_without_bounds(r@, k as int, y - 1);
                            rest.lemma_bounds_cap(y - 1);
                        }
                    }
                    return Treap::new(x, y, l, Box::new(rest));
                }
                let rest = l.del(k);
                proof {
                    rest.lemma_recorded_is_len();
                    l.lemma_heap_bounds(y as int);
                    lemma_without_bounds(l@, k as int, y as int);
                    lemma_without_bounds(l@, k as int, x as int);
                    rest.lemma_bounds_cap(y as int);
                    lemma_without_in_left(l@, (x, y), r@, k as int);
                }
                return Treap::new(x, y, Box::new(rest), r);
            },
        }
    }

    /// The height of the tree: the number of nodes on the longest way from
    /// the root down.
    pub fn deep(&self) -> (d: i32)
        requires
            self.height() <= i32::MAX,
        ensures
            d == self.height(),
        decreases self,
    {
        match self {
            Treap::Nil => 0,
            Treap::Node(_, _, _, l, r) => {
                let dl = l.deep();
                let dr = r.deep();
                if dl >= dr {
                    dl + 1
                } else {
                    dr + 1
                }
            },
        }
    }

    /// With the sizes kept, the root records the number of entries.
    pub proof fn lemma_recorded_is_len(self)
        requires
            self.sized(),
        ensures
            self.recorded() == self@.len(),
        decreases self,
    {
        match self {
            Treap::Nil => {},
            Treap::Node(_, _, _, l, r) => {
                l.lemma_recorded_is_len();
                r.lemma_recorded_is_len();
            },
        }
    }

    /// In search order the in-order keys are strictly increasing.
    pub proof fn lemma_bst_increasing(self)
        requires
            self.bst(),
        ensures
            increasing(self@),
        decreases self,
    {
        match self {
            Treap::Nil => {},
            Treap::Node(x, y, _, l, r) => {
                l.lemma_bst_increasing();
                r.lemma_bst_increasing();
                let a = l.entries();
                let b = r.entries();
                let s = self@;
                assert forall|i: int, j: int| 0 <= i < j < s.len() implies s[i].0 < s[j].0 by {
                    if i < a.len() {
                        assert(s[i] == a[i]);
                    } else if i > a.len() {
                        assert(s[i] == b[i - a.len() - 1]);
                    }
                    if j < a.len() {
                        assert(s[j] == a[j]);
                    } else if j > a.len() {
                        assert(s[j] == b[j - a.len() - 1]);
                    }
                }
            },
        }
    }

    /// In heap order no entry has a higher priority than the root.
    pub proof fn lemma_heap_bounds(self, p: int)
        requires
            self.heap(),
            self.capped(p),
        ensures
            priorities_at_most(self@, p),
        decreases self,
    {
        match self {
            Treap::Nil => {},
            Treap::Node(x, y, _, l, r) => {
                l.lemma_heap_bounds(y as int);
                r.lemma_heap_bounds(y as int);
                let a = l.entries();
                let b = r.entries();
                let s = self@;
                assert forall|i: int| 0 <= i < s.len() implies s[i].1 <= p by {
                    if i < a.len() {
                        assert(s[i] == a[i]);
                    } else if i > a.len() {
                        assert(s[i] == b[i - a.len() - 1]);
                    }
                }
            },
        }
    }

    /// A bound on every priority of the tree bounds the root's.
    pub proof fn lemma_bounds_cap(self, p: int)
        requires
            priorities_at_most(self@, p),
        ensures
            self.capped(p),
    {
        match self {
            Treap::Nil => {},
            Treap::Node(x, y, _, l, r) => {
                assert(self@[l.entries().len() as int] == (x, y));
            },
        }
    }

    /// Two well-formed treaps whose ties lean left are the same tree when
    /// they hold the same entries: the entries fix the shape and every
    /// recorded size.
    pub proof fn lemma_shape_determined(self, other: Treap)
        requires
            self.wf(),
            self.tie_ordered(),
            other.wf(),
            other.tie_ordered(),
            self@ == other@,
        ensures
            self == other,
        decreases self,
    {
        match (self, other) {
            (Treap::Nil, Treap::Nil) => {},
            (Treap::Node(x, y, _, l, r), Treap::Nil) => {
                assert(self@[l.entries().len() as int] == (x, y));
            },
            (Treap::Nil, Treap::Node(x, y, _, l, r)) => {
                assert(other@[l.entries().len() as int] == (x, y));
            },
            (Treap::Node(x1, y1, _, l1, r1), Treap::Node(x2, y2, _, l2, r2)) => {
                let s = self@;
                let i = l1.entries().len() as int;
                let j = l2.entries().len() as int;
                assert(s == l2.entries() + seq![(x2, y2)] + r2.entries());
                assert(s[i] == (x1, y1));
                assert(s[j] == (x2, y2));
                l1.lemma_heap_bounds(y1 as int);
                r1.lemma_heap_bounds(y1 - 1);
                l2.lemma_heap_bounds(y2 as int);
                r2.lemma_heap_bounds(y2 - 1);
                if i < j {
                    assert(s[j] == r1.entries()[j - i - 1]);
                    assert(s[i] == l2.entries()[i]);
                } else if j < i {
                    assert(s[i] == r2.entries()[i - j - 1]);
                    assert(s[j] == l1.entries()[j]);
                }
                assert(l1.entries() =~= s.take(i));
                assert(l2.entries() =~= s.take(j));
                assert(r1.entries() =~= s.skip(i + 1));
                assert(r2.entries() =~= s.skip(j + 1));
                l1.lemma_shape_determined(*l2);
                r1.lemma_shape_determined(*r2);
                self.lemma_recorded_is_len();
                other.lemma_recorded_is_len();
                l1.lemma_recorded_is_len();
                r1.lemma_recorded_is_len();
            },
        }
    }

    /// A tree is no higher than it has entries.
    pub proof fn lemma_height_bounded(self)
        ensures
            self.height() <= self@.len(),
        decreases self,
    {
        match self {
            Treap::Nil => {},
            Treap::Node(_, _, _, l, r) => {
                l.lemma_height_bounded();
                r.lemma_height_bounded();
            },
        }
    }
}

} // verus!
