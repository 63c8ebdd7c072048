//! An in-memory indexing core for sparse identity spaces: a three-level
//! hierarchical presence bitset with pooled, free-listed blocks; a masked
//! dense-array column store; a query layer that intersects column masks; and
//! an identity allocator that maps stable handles to recyclable indices.

pub mod bits;
pub mod bitset;
pub mod entity;
pub mod laws;
pub mod query;
pub mod store;

pub use bits::Bits;
pub use bitset::BitSet;
pub use entity::{Entities, HandleAlloc, Handles, IndexAlloc, IndexMap};
pub use query::{ColumnIter, MaybeIter, MaybeIter3, MaybeQuery, MaybeQuery3, QueryIter, QueryIter3, QueryIter4, QueryTuple, QueryTuple3, QueryTuple4};
pub use store::{MaskStore, RawStore, VecStore};
