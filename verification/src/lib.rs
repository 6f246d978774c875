//! Sliding-robot puzzle boards: generation of a wall layout with four robots,
//! and a breadth-first search for a hard parking pattern with its move list.
pub mod board;
pub mod grid;
pub mod log;
pub mod rng;
pub mod search;
pub mod state;
