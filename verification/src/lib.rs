//! Embedded vector storage: payloads and tenant filters, distance metrics,
//! a hierarchical navigable small-world graph index, an exact scan and the
//! storage segment that routes between them.

pub mod metric;
pub mod payload;
pub mod filter;
pub mod point;
pub mod score;
pub mod hnsw;
pub mod ranking;
pub mod exact;
pub mod segment;
pub mod simd;

