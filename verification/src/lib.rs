//! An ordered-set container backed by a sorted contiguous vector.
//!
//! The set keeps its elements in a strictly ascending, duplicate-free
//! sequence, ordered by a total order on the elements' abstract values.
//! Lookup and range resolution use binary search; bulk loading and the
//! binary set operations use a two-way merge scan over the ordered
//! storage.

pub mod laws;
mod merge;
pub mod ops;
pub mod order;
pub mod render;
pub mod set;
pub mod sorted;
pub mod text;

pub use order::Cmp;
pub use order::TotalOrder;
pub use ops::Difference;
pub use ops::Intersection;
pub use ops::SymmetricDifference;
pub use ops::Union;
pub use set::Bound;
pub use set::SortedVectorSet;
pub use text::Text;
