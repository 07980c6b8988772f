//! Core of a slippy-map client: Web-Mercator tile arithmetic on a
//! fixed-point coordinate grid, an LRU tile cache bounded by both entry
//! count and memory, a tile loader that deduplicates in-flight requests,
//! and the per-frame orchestration rules that tie them together.
//!
//! Geographic coordinates are carried as integers in units of 1e-8 degree;
//! the vertical Mercator coordinate is carried as a 32-bit fixed-point
//! fraction of the world height.  The transcendental step that turns a
//! latitude into that fraction (and back) is left to the host application,
//! which owns all floating-point work.

pub mod cache;
pub mod grid;
pub mod loader;
pub mod system;
pub mod tile;
