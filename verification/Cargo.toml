[package]
name = "fez_route"
version = "0.1.0"
edition = "2021"
publish = false

[dependencies]
petgraph = "*"
itertools = "*"
log = "*"
serde = { version = "*", features = ["derive"] }
serde_json = "*"
simple_logger = "*"
