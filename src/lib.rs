use vstd::prelude::*;

pub mod graph;
pub mod shortest_path;
pub mod vigenere;

verus! {

} // verus!
