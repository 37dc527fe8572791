//! One long-lived container together with its priority generator, driven by
//! numbered requests.

use vstd::prelude::*;
use crate::laws::{lemma_replaced_entry, lemma_without_key};
use crate::model::{Entry, has_key, increasing, key_at_rank, with_entry, without_key};
use crate::random::{initial, successor, Random};
use crate::treap::Treap;

verus! {

/// The request number that inserts a key.
pub const OP_INSERT: i32 = 1;

/// The request number that asks for the key of a rank.
pub const OP_SELECT: i32 = 0;

/// What a request gives back.
#[derive(Clone, Copy, Debug, PartialEq, Eq)]
pub enum Reply {
    /// The request was carried out and has nothing to say.
    Done,
    /// The key of the rank asked for.
    Key(i32),
    /// No key has the rank asked for.
    NotFound,
    /// The key is new and the container cannot hold one more.
    Full,
}

/// A container and the generator that draws a priority for each insertion.
pub struct Session {
    tree: Treap,
    random: Random,
}

impl View for Session {
    type V = Seq<Entry>;

    /// The entries held, in ascending key order.
    open spec fn view(&self) -> Seq<Entry> {
        self.held()@
    }
}

impl Session {
    #[verifier::type_invariant]
    spec fn inv(self) -> bool {
        self.tree.wf() && self.tree.tie_ordered()
    }

    /// The tree that holds the entries.
    pub closed spec fn held(self) -> Treap {
        self.tree
    }

    /// The state of the priority generator.
    pub closed spec fn generator(self) -> int {
        self.random.state()
    }

    /// What a rank query answers on the entries `s`.
    pub open spec fn answer(s: Seq<Entry>, rank: int) -> Reply {
        match key_at_rank(s, rank) {
            Some(key) => Reply::Key(key),
            None => Reply::NotFound,
        }
    }

    /// An empty container, with a generator that has made its first step.
    pub fn new() -> (s: Session)
        ensures
            s.held() == Treap::Nil,
            s@ == Seq::<Entry>::empty(),
            s.generator() == successor(initial()),
    {
        let mut random = Random::new();
        random.next();
        Session { tree: Treap::Nil, random }
    }

    /// The tree that holds the entries: always a well-formed treap whose
    /// ties lean left.
    pub fn tree(&self) -> (t: &Treap)
        ensures
            *t == self.held(),
            t.wf(),
            t.tie_ordered(),
    {
        proof {
            use_type_invariant(self);
        }
        &self.tree
    }

    /// The number of keys held.
    pub fn len(&self) -> (n: usize)
        ensures
            n == self@.len(),
    {
        proof {
            use_type_invariant(self);
            self.tree.lemma_recorded_is_len();
        }
        self.tree.size()
    }

    /// Carries out one request. `OP_INSERT` puts the key `val` in with a
    /// priority drawn from the generator, in place of an entry that has the
    /// key already; `OP_SELECT` asks for the key of rank `val`; every other
    /// number takes the key `val` out.
    pub fn step(&mut self, op: i32, val: i32) -> (reply: Reply)
        ensures
            final(self).held().wf(),
            final(self).held().tie_ordered(),
            increasing(final(self)@),
            op == OP_INSERT ==> {
                let drawn = successor(old(self).generator());
                &&& final(self).generator() == drawn
                &&& if old(self)@.len() < usize::MAX || has_key(old(self)@, val as int) {
                    &&& reply == Reply::Done
                    &&& final(self)@ == with_entry(
                        without_key(old(self)@, val as int),
                        val,
                        drawn as i32,
                    )
                    &&& final(self)@.len() == old(self)@.len() + (if has_key(
                        old(self)@,
                        val as int,
                    ) {
                        0int
                    } else {
                        1int
                    })
                    &&& forall|j: int|
                        has_key(final(self)@, j) <==> has_key(old(self)@, j) || j == val
                } else {
                    reply == Reply::Full && final(self)@ == old(self)@
                }
            },
            op == OP_SELECT ==> {
                &&& final(self).generator() == old(self).generator()
                &&& final(self)@ == old(self)@
                &&& reply == Self::answer(old(self)@, val as int)
            },
            op != OP_INSERT && op != OP_SELECT ==> {
                &&& final(self).generator() == old(self).generator()
                &&& final(self)@ == without_key(old(self)@, val as int)
                &&& final(self)@.len() == old(self)@.len() - (if has_key(old(self)@, val as int) {
                    1int
                } else {
                    0int
                })
                &&& forall|j: int| has_key(final(self)@, j) <==> has_key(old(self)@, j) && j != val
                &&& reply == Reply::Done
            },
    {
        proof {
            use_type_invariant(&*self);
            self.tree.lemma_bst_increasing();
            self.tree.lemma_recorded_is_len();
        }
        if op == OP_INSERT {
            let mut random = self.random;
            let priority = random.next();
            self.random = random;
            let mut tree = Treap::Nil;
            std::mem::swap(&mut tree, &mut self.tree);
            proof {
                lemma_without_key(tree@, val as int);
                lemma_replaced_entry(tree@, val, priority);
            }
            if tree.size() < usize::MAX {
                self.tree = tree.push(val, priority);
                Reply::Done
            } else {
                let rest = tree.del(val);
                proof {
                    rest.lemma_recorded_is_len();
                    rest.lemma_bst_increasing();
                    lemma_without_key(rest@, val as int);
                }
                if rest.size() < usize::MAX {
                    self.tree = rest.push(val, priority);
                    Reply::Done
                } else {
                    self.tree = rest;
                    Reply::Full
                }
            }
        } else if op == OP_SELECT {
            if val < 1 {
                Reply::NotFound
            } else {
                match self.tree.get(val as usize) {
                    Some(key) => Reply::Key(key),
                    None => Reply::NotFound,
                }
            }
        } else {
            let mut tree = Treap::Nil;
            std::mem::swap(&mut tree, &mut self.tree);
            let rest = tree.del(val);
            proof {
                rest.lemma_bst_increasing();
            }
            self.tree = rest;
            Reply::Done
        }
    }
}

} // verus!
