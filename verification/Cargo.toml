[package]
name = "sheet_engine"
version = "0.1.0"
edition = "2021"
publish = false

[dependencies]
indexmap = "*"
petgraph = "*"
serde = { version = "*", features = ["derive"] }
serde_json = "*"
