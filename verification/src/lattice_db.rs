pub mod agreement;
pub mod bitmap;
pub mod graph_map;
pub mod reader;
pub mod writer;
