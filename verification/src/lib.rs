//! Layout-versus-schematic netlist comparison.
use vstd::prelude::*;

pub mod text;
pub mod spice;
pub mod job;
pub mod sort;
pub mod graph;
pub mod refine;
pub mod divergence;
pub mod iso;
pub mod compare;
pub mod engine;
pub mod extract;
pub mod invariance;
pub mod events;

verus! {

} // verus!
