[package]
name = "axolotl_rs"
version = "0.1.0"
edition = "2021"
publish = false

[dependencies]
rand = "0.8"
serde = { version = "1", features = ["derive"] }
serde_json = "1"
memmap2 = "0.9"
petgraph = "0.6"
thiserror = "1"
