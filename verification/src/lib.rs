//! An embedded property-graph database core: graphs are staged in memory,
//! compared with what is persisted, and committed as updates of inverted
//! indexes; queries are compiled to plans and evaluated over the indexes.
//!
//! The library holds the logic and proves it; it reads and writes no store.
//! A store is driven from outside through `Search`, `IndexCache` and
//! `Sequences`.

pub mod errors;
pub mod graph;
pub mod lattice_db;
pub mod props;
pub mod query;
pub mod utils;

pub use errors::LatticeError;
pub use graph::graph_builder;
pub use graph::graph_builder::GraphBuilder;
pub use props::properties;
pub use query::query_builder;
pub use query::query_builder::QueryBuilder;
pub use query::query_prepared::PreparedQuery;
pub use utils::values;

pub use crate::lattice_db::graph_map::{deleted_vertex_writes, new_vertex_writes, MapWrite};
pub use crate::lattice_db::reader::{Lookup, Progress, Search, Table};
pub use crate::lattice_db::writer::{
    index_updates, Assignment, IndexCache, IndexUpdate, IndexWrite, Sequences,
};
