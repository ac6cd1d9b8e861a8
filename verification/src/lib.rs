//! Durable graph projections and graph query planning, with proved contracts.
//!
//! `projection` holds the durable side: delta segments, mutation
//! normalization, layered reads, ingestion, compaction, manifests and their
//! lifecycle. `query` holds the binder, the planner and the executor of the
//! graph query subset.

pub mod checksum;
pub mod edge_store;
pub mod gql;
pub mod order;
pub mod ordered_map;
pub mod paths;
pub mod projection;
pub mod query;
pub mod quote;
pub mod safety;
pub mod text;
pub mod types;
pub mod views;
