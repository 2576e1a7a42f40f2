//! A solver for a tile-placement puzzle on a rectangular grid of cyclic
//! counters. Every piece is a fixed pattern of cells that may be translated
//! (never rotated or reflected); placing it decrements each covered cell's
//! token by one modulo the cycle length. The solver normalizes the raw grid
//! against a goal value, preprocesses the pieces into placement caches, and
//! runs a pruned depth-first backtracking search for a placement of every
//! piece that drives all tokens to zero.

pub mod cancel;
pub mod model;
pub mod solver;
