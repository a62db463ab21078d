//! A decision engine for a turn-based grid survival game.
//!
//! The board of the current turn is the root of a tree of simulated futures.
//! Workers extend that tree one simulated turn at a time, score the boards they
//! reach and hand improved scores back towards the root; the move selector
//! reads the best direction off the root's children.

pub mod registry;
pub mod requests;
pub mod responses;
pub mod scorer;
pub mod simulator;
pub mod tree;
pub mod worker;
