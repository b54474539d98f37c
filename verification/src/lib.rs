//! Logical-plan optimizer for a dataframe query engine.
//!
//! A logical plan is a tree of declarative operator nodes (projections,
//! filters, sorts, aggregations, joins, scans) describing a query before
//! execution.  This crate rewrites such a tree so that column projections
//! and row filters are performed as close to the data sources as schema
//! compatibility allows, without changing what the plan computes.

pub mod expr;
pub mod laws;
pub mod optimizer;
pub mod plan;
pub mod schema;
