//! A word-search solver: a fixed-size letter board, a prefix trie holding the
//! dictionary, and a depth-first search that enumerates every simple path of
//! adjacent cells spelling a dictionary word.
use vstd::prelude::*;

pub mod board;
pub mod trie;
pub mod solver;

verus! {

} // verus!
