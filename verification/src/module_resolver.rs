//! Module identity, the dependency graph between modules, and export tables.

pub mod dependency_graph;
pub mod error;
pub mod exports;
pub mod ordering;
