//! Sets of fixed-length strings over the alphabet `a`..`z`, written as
//! patterns and held as prefix trees or as minimized word graphs.
pub mod letter;
pub mod word;
pub mod pattern;
pub mod order;
pub mod trie;
pub mod laws;
pub mod dawg;
pub mod codec;
pub mod set_traits;
