//! A bounded two-dimensional cellular automaton (a Conway's Game of Life
//! variant) with configurable birth/survival/death thresholds.
//!
//! The engine keeps a fixed-size rectangular grid of boolean cells. One
//! generation is advanced in two phases: every playable cell is inspected
//! against the current grid and a pending action (`Create` or `Kill`) is
//! buffered, then the whole buffer is applied at once, so that no decision
//! ever observes a mutation made in the same pass. Rendering, input handling
//! and color assignment are left to an unverified driver around this crate.

pub mod grid;
pub mod laws;
pub mod ruleset;
