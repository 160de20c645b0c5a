//! Semantic-analysis core for a statically typed Lua dialect.
//!
//! - [`module_resolver`]: module identity and file kinds, the dependency
//!   graph between modules with its dependency-first order, and the export
//!   table of each module.
//! - [`type_relations`]: the cache of subtype verdicts.
//! - [`driver`]: from the modules of a compilation to their order and their
//!   export tables; imports and subtype decisions by way of the tables and
//!   the cache.
//! - [`state`]: loading the definition files of the standard library.

pub mod driver;
pub mod module_resolver;
pub mod state;
pub mod type_relations;
