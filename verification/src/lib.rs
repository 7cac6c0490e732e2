//! A small JSON codec: a recursive-descent parser from bytes to a value tree,
//! and a serializer from the tree back to compact JSON text.

pub mod json;
