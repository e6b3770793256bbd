pub mod properties;
