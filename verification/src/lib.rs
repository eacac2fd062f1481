//! Substrate for crossword construction and validation: a length-partitioned
//! word index (the lexicon) and a rectangular puzzle grid whose word slots,
//! cell access, and perpendicular constraints are derived and verified.

pub mod chars;
pub mod lexicon;
pub mod puzzle;
pub mod trie;
