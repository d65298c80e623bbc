//! An embedded, read-optimized, fixed-schema B+ tree over append-only
//! historical price observations.
//!
//! The keyed unit is the triple `(asset_id, date, timestamp)`; each entry
//! carries a single 32-bit value (the big-endian bit pattern of an IEEE-754
//! single-precision float). The tree is bulk-loaded once from a sorted
//! source into a flat byte image and is queried afterwards; it is never
//! mutated in place.

pub mod cache;
pub mod clock;
pub mod codec;
pub mod header;
pub mod index;
pub mod key;
pub mod model;
pub mod page;
pub mod tree;
