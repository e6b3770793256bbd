pub mod graph_builder;
pub mod graph_links;
pub mod graph_prepared;
