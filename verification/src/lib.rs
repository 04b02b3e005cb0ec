//! Finds every way a word can be tiled with tokens drawn from a fixed
//! dictionary of short strings, and filters the resulting token-index
//! sequences by a numeric signature.
#![verifier::loop_isolation(false)]

pub mod model;
pub mod search;
pub mod solution;
pub mod tree;
pub mod words;
