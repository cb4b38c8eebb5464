//! Payload field indexes for a vector-search segment.
//!
//! Two index families live here: a categorical map index over a hashed
//! value-to-points table, and an ordered numeric index supporting range
//! queries, cardinality estimation and block partitioning. Everything is
//! stated over mathematical views and proved against them.

pub mod bitslice;
pub mod blocks;
pub mod byte_format;
pub mod counter;
pub mod encodable;
pub mod float_bits;
pub mod hashmap_file;
pub mod histogram;
pub mod immutable_numeric_index;
pub mod in_memory_numeric_index;
pub mod key_encoding;
pub mod laws;
pub mod mmap_hashmap;
pub mod mmap_map_index;
pub mod mmap_numeric_index;
pub mod mutable_numeric_index;
pub mod pairing;
pub mod numeric_index;
pub mod numeric_index_builders;
pub mod point_to_values;
pub mod point_values_file;
pub mod sorted_points;
pub mod types;
