//! Binding, planning, lowering and execution of graph queries.
//!
//! Parsed statements bind against a catalog snapshot, lower into physical plans
//! and execute against the topology stores of an engine.

pub mod names;
pub mod logical_plan;
pub mod catalog_snapshot;
pub mod predicates;
pub mod scope;
pub mod physical_plan;
pub mod semantics;
pub mod binding_laws;
pub mod joins;
pub mod join_laws;
pub mod wildcard;
pub mod wildcard_laws;
pub mod lower;
pub mod lower_laws;
pub mod explain;
pub mod explain_laws;
pub mod sqlpgq_adapter;
pub mod engine;
pub mod steps;
pub mod expand;
pub mod rows;
pub mod walks;
pub mod execute;
pub mod execute_join;
pub mod execute_wildcard;
pub mod results;
pub mod json;
pub mod json_order;
pub mod hydrate;
pub mod evaluate;
pub mod slots;
pub mod filter;
pub mod aggregate;
pub mod value;
pub mod value_laws;
pub mod projection_laws;
pub mod traversal_laws;
pub mod catalog_laws;
pub mod adapter_laws;
pub mod pattern_laws;
pub mod completeness_laws;
pub mod json_laws;
pub mod filter_laws;
pub mod aggregate_laws;
pub mod statement_laws;
