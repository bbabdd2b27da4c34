//! Random numbers, and a record of them.
//!
//! What a draw gives, chance decides. The record says which numbers were drawn,
//! out of how many each, so that a contract can say what became of them.
use crate::flash::{random_below, thread_generator};
use rand::rngs::ThreadRng;
use vstd::prelude::*;

verus! {

/// A generator of random numbers that remembers what it gave.
pub struct Dice {
    generator: ThreadRng,
    drawn: Ghost<Seq<(usize, usize)>>,
}

impl Dice {
    /// The numbers drawn so far, oldest first, each after the bound below which
    /// it was drawn.
    pub closed spec fn drawn(&self) -> Seq<(usize, usize)> {
        self.drawn@
    }

    /// A generator that has not been used.
    pub fn new() -> (dice: Dice)
        ensures
            dice.drawn() == Seq::<(usize, usize)>::empty(),
    {
        Dice { generator: thread_generator(), drawn: Ghost(Seq::empty()) }
    }

    /// Draws a number below a bound, and remembers it.
    pub fn roll(&mut self, bound: usize) -> (n: usize)
        requires
            bound > 0,
        ensures
            n < bound,
            final(self).drawn() == old(self).drawn().push((bound, n)),
    {
        let n: usize = random_below(&mut self.generator, bound);
        self.drawn = Ghost(self.drawn@.push((bound, n)));
        n
    }
}

} // verus!
