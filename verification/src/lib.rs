//! A persistent rope: an immutable sequence stored as a binary tree over
//! chunks of elements, with sparse markers on positions.
//!
//! A [`Rope`] is built from a slice, from a [`Chunk`], or from a stream of
//! chunks, and then only read: `concat` and `slice` build new ropes that
//! share the subtrees they leave untouched. Markers tag positions;
//! internal nodes cache how often each marker occurs below them, so that
//! counting a marker and finding its n-th occurrence need no scan.
//!
//! Contracts speak of a rope through its view, the sequence of its
//! elements, and through `marks`, the strictly increasing sequence of the
//! positions that carry a given marker.
//!
//! The marker type is the key of hash maps throughout, so the constructors
//! ask that it obeys vstd's model of a hash-map key.

pub mod chunk;
pub mod error;
pub mod laws;
pub mod loader;
pub mod marks;
mod node;
mod offsets;
mod order;
pub mod rope;
mod table;
pub mod values;

pub use chunk::Chunk;
pub use error::{IndexError, LoadError, MarkerRangeError, RangeError};
pub use loader::BulkLoader;
pub use rope::Rope;
pub use values::Values;
