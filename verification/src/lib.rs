//! Wall-collision geometry compaction for tile-based levels.
//!
//! A level's solid tiles arrive as a set of integer grid coordinates. Spawning
//! one physics collider per tile would be wasteful, so the library compacts
//! the set into axis-aligned rectangles by a greedy plate-merging sweep: each
//! row is cut into maximal horizontal runs ("plates"), and a plate that
//! reappears unchanged on the next row extends the open rectangle above it.
//! The emitted rectangles cover every solid cell exactly once, and each one is
//! finally turned into a collider descriptor (center and half-extents) in
//! world units.

pub mod grid;
pub mod plates;
pub mod merge;
pub mod compact;
pub mod collider;
pub mod partition;
