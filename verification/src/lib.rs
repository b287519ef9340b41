//! A verified engine for Blokus-style tile-packing puzzles.
//!
//! Polyomino pieces are placed on a rectangular grid under the rule that
//! same-color pieces may touch only at corners, never along edges, starting
//! from per-player home cells.  The crate provides the piece catalog, the
//! legality-tracking board with reversible move application, an evaluation
//! heuristic over the empty space, and a best-first tree-search engine that
//! explores play sequences through random playouts.

pub mod neighbors;
pub mod pieces;
pub mod board;
pub mod heuristic;
pub mod game;
pub mod treesearch;
