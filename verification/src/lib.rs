//! Per-path type statistics over a stream of JSON documents.
//!
//! Every value met in a document is filed under its key path (`.field` for an
//! object member, `[]` for an array element) and counted by kind; ordered kinds
//! also keep the least and the greatest value seen. Accumulators built over
//! separate inputs can be merged, and merging is associative and commutative.

pub mod aggregate;
pub mod convert;
pub mod entries;
pub mod float;
pub mod group;
pub mod item;
pub mod json;
pub mod laws;
pub mod model;
pub mod order;
pub mod outside;
pub mod scalar;
pub mod stat;
pub mod text;

pub use aggregate::{Count, MaxMinCount};
pub use float::FloatNumber;
pub use item::JsonStatItem;
pub use json::{JsonNumber, JsonValue};
pub use stat::JsonStat;
