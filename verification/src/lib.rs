//! A cellular automaton on a bounded square grid, with cycle detection.
//!
//! The library has three parts: `cells` holds the sparse living-cell set and
//! the neighborhood rule, `snapshot` canonicalizes each generation into an
//! order-independent signature and detects repeats, and `game` ties them
//! together into one simultaneous-update tick. `codec` gives the textual
//! encoding of a cell list that external persistence stores and reloads.

pub mod board;
pub mod cells;
pub mod codec;
pub mod game;
pub mod laws;
pub mod snapshot;
