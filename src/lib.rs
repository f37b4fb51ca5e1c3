//! Sprite-sheet compression: per-animation frame deltas, tile
//! deduplication and atlas placement.

pub mod image;
pub mod delta;
pub mod animation;
pub mod atlas;
pub mod manifest;
