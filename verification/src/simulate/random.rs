//! The source of random numbers: the generator of the thread, or a script.

use rand::Rng;
use vstd::prelude::*;

verus! {

/// Where the simulations get their random numbers from. A source remembers
/// what it has handed out, so that a contract can say which draws a result
/// came from.
pub trait RandomSource {
    /// The numbers handed out so far, oldest first.
    spec fn drawn(&self) -> Seq<u8>;

    /// A number below `bound`.
    fn next_in_range(&mut self, bound: u8) -> (number: u8)
        requires
            bound > 0,
        ensures
            number < bound,
            final(self).drawn() == old(self).drawn().push(number),
    ;
}

/// Whether `later` begins with all of `earlier`.
pub open spec fn extends(later: Seq<u8>, earlier: Seq<u8>) -> bool {
    &&& earlier.len() <= later.len()
    &&& forall|i: int| 0 <= i < earlier.len() ==> later[i] == earlier[i]
}

/// Whether `later` is `earlier` with one number below 100 behind it.
pub open spec fn one_percent_more(later: Seq<u8>, earlier: Seq<u8>) -> bool {
    &&& extends(later, earlier)
    &&& later.len() == earlier.len() + 1
    &&& later.last() < 100
}

/// Calls `gen_range` of `rand`, on the generator that `thread_rng` keeps for
/// the calling thread, with the range from 0 up to `bound`, `bound` left out.
/// Believed of it: the number is below `bound`. An empty range, on which it
/// panics, is kept out.
#[verifier::external_body]
fn thread_range(bound: u8) -> (number: u8)
    requires
        bound > 0,
    ensures
        number < bound,
{
    rand::thread_rng().gen_range(0..bound)
}

/// The random generator of the calling thread.
pub struct ThreadRandom {
    drawn: Ghost<Seq<u8>>,
}

impl ThreadRandom {
    /// A source that has handed out nothing yet.
    pub fn new() -> (source: Self)
        ensures
            source.drawn() == Seq::<u8>::empty(),
    {
        ThreadRandom { drawn: Ghost(Seq::empty()) }
    }
}

impl RandomSource for ThreadRandom {
    closed spec fn drawn(&self) -> Seq<u8> {
        self.drawn@
    }

    fn next_in_range(&mut self, bound: u8) -> (number: u8) {
        let number = thread_range(bound);
        self.drawn = Ghost(self.drawn@.push(number));
        number
    }
}

/// A source that hands out the numbers of a script, in order, each reduced
/// modulo the bound asked for, and 0 once the script is used up.
pub struct ScriptedDraws {
    script: Vec<u8>,
    position: usize,
    drawn: Ghost<Seq<u8>>,
}

impl ScriptedDraws {
    #[verifier::type_invariant]
    spec fn position_in_script(&self) -> bool {
        self.position <= self.script@.len()
    }

    /// The numbers of the script that have not been handed out yet.
    pub closed spec fn upcoming(&self) -> Seq<u8> {
        self.script@.skip(self.position as int)
    }

    /// A source that will hand out `script`.
    pub fn new(script: Vec<u8>) -> (source: Self)
        ensures
            source.drawn() == Seq::<u8>::empty(),
            source.upcoming() == script@,
    {
        ScriptedDraws { script, position: 0, drawn: Ghost(Seq::empty()) }
    }

    /// How many numbers of the script have not been handed out yet.
    pub fn remaining(&self) -> (count: usize)
        ensures
            count == self.upcoming().len(),
    {
        proof {
            use_type_invariant(self);
        }
        self.script.len() - self.position
    }
}

impl RandomSource for ScriptedDraws {
    closed spec fn drawn(&self) -> Seq<u8> {
        self.drawn@
    }

    fn next_in_range(&mut self, bound: u8) -> (number: u8)
        ensures
            old(self).upcoming().len() > 0 ==> number == old(self).upcoming()[0] % bound
                && final(self).upcoming() == old(self).upcoming().skip(1),
            old(self).upcoming().len() == 0 ==> number == 0 && final(self).upcoming() == old(
                self,
            ).upcoming(),
    {
        proof {
            use_type_invariant(&*self);
        }
        let number = if self.position < self.script.len() {
            let scripted = self.script[self.position] % bound;
            self.position = self.position + 1;
            scripted
        } else {
            0
        };
        self.drawn = Ghost(self.drawn@.push(number));
        number
    }
}

} // verus!
