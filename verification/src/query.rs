pub mod query_builder;
pub mod query_meaning;
pub mod query_order;
pub mod query_prepared;
pub mod query_root;
pub mod query_save;
