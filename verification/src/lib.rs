//! In-memory engine for causal graphical models: a registry of edge kinds,
//! a compressed multigraph core, class-validated typed views (ADMG, PAG) with
//! packed per-node neighborhoods, and structural query and distance routines.

pub mod errors;
pub mod text;
pub mod edges;
pub mod graph;
pub mod order;
pub mod builder;
pub mod acyclic;
pub mod pack;
pub mod traverse;
pub mod admg;
pub mod pag;
pub mod metrics;
pub mod align;
pub mod table;
pub mod query;
