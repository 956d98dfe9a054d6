//! Food lying on the field.
use vstd::prelude::*;

verus! {

/// A piece of food at a pixel position. `body` is what the simulation does
/// not decide on here: its exact position, its look and its nourishment.
pub struct Food<F> {
    pub pos: (i32, i32),
    pub body: F,
}

impl<F: Clone> Clone for Food<F> {
    /// A copy of the food, with a clone of its body.
    fn clone(&self) -> (copy: Self)
        ensures
            copy.pos == self.pos,
            cloned(self.body, copy.body),
    {
        Food { pos: self.pos, body: self.body.clone() }
    }
}

impl<F> Food<F> {
    /// A piece of food at `pos`.
    pub fn new(pos: (i32, i32), body: F) -> (food: Food<F>)
        ensures
            food.pos == pos,
            food.body == body,
    {
        Food { pos, body }
    }
}

} // verus!
