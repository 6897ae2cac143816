[package]
name = "outdegree"
version = "0.1.0"
edition = "2021"
publish = false

[dependencies]
url = "2"
psl = "2"
petgraph = "0.6"
serde = { version = "1", features = ["derive"] }
serde_json = "1"
