//! An order-indexed collection of payload entries addressed by fixed-depth
//! composite keys, together with a partitioner that splits such a collection
//! into buckets bounded by entry count and cumulative payload size.
//!
//! `flat_package` holds the categorized store; `flat_package_pack` the
//! partitioner built on it; `keyorder` the lexicographic order on keys; and
//! `entries` the specification vocabulary shared by their contracts.

pub mod entries;
pub mod flat_package;
pub mod flat_package_pack;
pub mod keyorder;
