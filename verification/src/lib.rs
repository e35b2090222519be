//! An offline texture-atlas builder.
//!
//! Source images are deduplicated by a content fingerprint, packed into
//! non-overlapping rectangular regions of a single growable canvas, and
//! finally composed into one atlas pixel buffer together with a sprite
//! sheet that maps every submitted identity to its region.

pub mod allocator;
pub mod arena;
pub mod builder;
pub mod components;
pub mod compose;
pub mod config;
pub mod fingerprint;
pub mod geometry;

pub use geometry::MAX_DIM;
