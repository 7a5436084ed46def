//! A verified engine for Conway's Game of Life on a fixed-size grid with
//! edge-clamped neighborhoods.
//!
//! The engine keeps, beside each cell's live/dead state, an incrementally
//! maintained buffer of live-neighbor counts.  The central invariant is that
//! this buffer always matches the actual number of live neighbors of every
//! cell, and that the counts published in the cells themselves match the
//! buffer at the end of every public mutating operation.

pub mod conway;
pub mod laws;
