use vstd::prelude::*;

pub mod trie;
pub mod tokenizer;
pub mod vocab;
pub mod schedule;
pub mod model;
pub mod generation;

verus! {
} // verus!
