//! Verified building blocks of a small collection of programming exercises: an ordered
//! binary search tree with insertion, lookup, deletion and grafting, a second tree that admits
//! duplicates, a reverse Polish notation evaluator, a prime sieve, a song filter and the rules
//! of a number guessing game.
pub mod guess;
pub mod laws;
pub mod order;
pub mod rpn;
pub mod search_tree;
pub mod shape;
pub mod sieve;
pub mod snippets;
pub mod songs;
pub mod tree;
