[package]
name = "lattice_db"
version = "0.1.0"
edition = "2021"
publish = false

[dependencies]
bincode = { version = "2", features = ["derive"] }
rapidhash = "*"
rayon = "*"
redb = "*"
roaring = "*"
tempfile = "*"
thiserror = "*"
