//! Chance, drawn from `rand`'s thread-local generator.
use vstd::prelude::*;
use rand::Rng;

verus! {

/// A number drawn from `0..bound` by `rand::thread_rng().gen_range(0..bound)`.
/// `Rng::gen_range` yields a value of the half-open range and panics when the
/// range is empty, which `requires` rules out. Which value comes out is
/// chance; the generator itself panics only if the operating system cannot
/// seed it, which no argument can rule out.
#[verifier::external_body]
pub(crate) fn below(bound: u32) -> (r: u32)
    requires
        bound > 0,
    ensures
        r < bound,
{
    rand::thread_rng().gen_range(0..bound)
}

/// The record of the numbers drawn so far (a ghost log: nothing of it exists
/// at run time). Only `Draws::below` adds to it, one entry per draw, so a
/// contract can tell one draw from another.
pub struct Draws {
    log: Ghost<Seq<u32>>,
}

impl View for Draws {
    type V = Seq<u32>;

    closed spec fn view(&self) -> Seq<u32> {
        self.log@
    }
}

impl Draws {
    /// A record of no draws.
    pub fn new() -> (d: Draws)
        ensures
            d@ == Seq::<u32>::empty(),
    {
        Draws { log: Ghost(Seq::empty()) }
    }

    /// Draws a number from `0..bound` and records it.
    pub fn below(&mut self, bound: u32) -> (r: u32)
        requires
            bound > 0,
        ensures
            r < bound,
            final(self)@ == old(self)@.push(r),
    {
        let r: u32 = below(bound);
        self.log = Ghost(self.log@.push(r));
        r
    }
}

} // verus!
