//! An in-memory associative table built from first principles: open hashing
//! with separate chaining and incremental doubling of the bucket array.
//!
//! The table maps a hashable, equality-comparable key to an arbitrary value.
//! Every operation is specified against an abstract map from key values to
//! stored values, and the structural invariants (capacity a power of two,
//! every entry in the bucket its hash selects, no duplicate keys, an exact
//! entry count) are proved to hold across every operation.

mod keys;
mod table;

pub use keys::TableKey;
pub use table::HashMap;
