[package]
name = "concept_graph"
version = "0.1.0"
edition = "2021"
publish = false

[dependencies]
anyhow = "1"
csv = "1"
dot-writer = "*"
itertools = "*"
serde = { version = "1", features = ["derive"] }
