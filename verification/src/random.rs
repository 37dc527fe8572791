//! The linear congruential generator that supplies priorities.

use vstd::prelude::*;

verus! {

/// The multiplier of the generator.
pub const A: i64 = 1366;

/// The increment of the generator.
pub const C: i64 = 150889;

/// The modulus of the generator: every state lies in `0..M`.
pub const M: i64 = 714025;

/// The number from which the first state is taken.
pub const START: i64 = 0x114514;

/// The state of a new generator.
pub open spec fn initial() -> int {
    (START % M) as int
}

/// The state that follows `seed`.
pub open spec fn successor(seed: int) -> int {
    (A * seed + C) % (M as int)
}

/// A generator of pseudo-random numbers with explicit state.
#[derive(Clone, Copy, Debug)]
pub struct Random {
    seed: i64,
}

impl Random {
    #[verifier::type_invariant]
    spec fn in_range(self) -> bool {
        0 <= self.seed < M
    }

    /// The current state.
    pub closed spec fn state(self) -> int {
        self.seed as int
    }

    /// A generator in its first state.
    pub fn new() -> (r: Random)
        ensures
            r.state() == initial(),
    {
        let cur_time: i64 = START;
        let seed: i64 = cur_time % M;
        Random { seed }
    }

    /// Moves to the next state and returns it.
    pub fn next(&mut self) -> (v: i32)
        ensures
            final(self).state() == successor(old(self).state()),
            v == final(self).state(),
            0 <= v < M,
    {
        proof {
            use_type_invariant(&*self);
        }
        self.seed = (A * self.seed + C) % M;
        self.seed as i32
    }
}

} // verus!
