//! Decoding stage of a span-based entity/relation extraction pipeline.
//!
//! The library turns a thresholded score surface into a policy-consistent
//! set of labeled spans (candidate extraction, then greedy overlap
//! resolution under flat/nested and single/multi-label policies), and
//! optionally into schema-validated relation triples. Stages compose
//! through a generic, context-threading pipeline trait.

pub mod span;
pub mod greedy;
pub mod context;
pub mod schema;
pub mod decoded;
pub mod relation;
pub mod compose;
