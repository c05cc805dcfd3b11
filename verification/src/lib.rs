//! A constraint-propagation tile solver ("wave function collapse" family).
//!
//! A coordinate system enumerates cells, a tile set answers which tiles may
//! stand next to which, and the engine assigns one tile to every cell by
//! repeatedly collapsing the least-entropy cell and propagating the
//! consequences, or fails on a contradiction.

pub mod bits;
pub mod counting;
pub mod demo;
pub mod directions;
pub mod engine;
pub mod grid;
pub mod pqueue;
pub mod sampling;
pub mod tiler;
pub mod tilesets;
