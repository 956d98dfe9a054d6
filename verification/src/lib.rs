//! A small evolution simulation: blobs with neural-network brains wander a
//! window, eat food, reproduce with mutated weights and die of hunger.
//! This crate holds the simulation's bookkeeping, decisions and its
//! template file format, with their contracts.
use vstd::prelude::*;

mod random;
pub mod setup;
pub mod template;
pub mod update;

verus! {

} // verus!
