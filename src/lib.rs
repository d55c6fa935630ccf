//! Round-robin pairing: repeated perfect matchings of a fixed population in
//! which no pair is ever formed twice and no excluded pair is ever formed.

pub mod matching;
pub mod constraints;
mod random;
pub mod solver;
pub mod session;
pub mod laws;
