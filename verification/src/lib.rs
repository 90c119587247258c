//! JSON to Variant encoding.
//!
//! A Variant is a pair of byte strings: the *value*, which holds the shape
//! and the scalars of a JSON document, and the *metadata*, which holds the
//! dictionary of the field names that the value refers to by number.
//!
//! [`json::json_to_variant`] reads a JSON text and writes the two into the
//! buffers of a [`memory_allocator::MemoryAllocator`]. What the bytes are
//! is said in [`encoding`], by functions of the document alone; what holds
//! of them whatever the document is proved in [`laws`].
//!
//! The modules [`schema`], [`table_features`] and [`actions`] hold what a
//! table format needs to know of the Variant type: how a schema names it,
//! and which features a table with Variant columns asks of its readers and
//! writers.

pub mod actions;
pub mod builder;
pub mod container;
pub mod dictionary;
pub mod encoding;
pub mod error;
pub mod fields;
pub mod json;
pub mod laws;
pub mod memory_allocator;
pub mod metadata;
pub mod number;
pub mod schema;
pub mod stability;
pub mod table_features;
pub mod value;
pub mod variant_utils;
pub mod wire;
