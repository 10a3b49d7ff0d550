//! A matchmaking arena: participants wait with a widening window of
//! acceptable ranks, and the arena picks the rank that most windows accept.

pub mod arena;
pub mod coverage;
pub mod matching;
pub mod window;

pub use crate::arena::Arena;
