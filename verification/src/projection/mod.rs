//! Durable projection artifacts and the reads layered over them.

pub mod segment;
pub mod normalize;
pub mod neighbors;
pub mod tx_delta;
pub mod layered;
pub mod manifest;
pub mod manifest_laws;
pub mod ingest;
pub mod sources;
pub mod compact;
pub mod replay;
pub mod says;
pub mod preservation;
pub mod readers;
pub mod compaction_laws;
pub mod lineage;
pub mod ingest_laws;
pub mod node_laws;
pub mod edge_laws;
pub mod gc;
pub mod artifact_laws;
pub mod chunk;
pub mod recovery;
pub mod status;
pub mod operation_laws;
pub mod generation_laws;
pub mod transaction_laws;
pub mod read_laws;
pub mod format_laws;
