[package]
name = "cyclic_graph"
version = "0.2.0"
edition = "2021"
publish = false

[dependencies]
tokio = { version = "1", features = ["sync"] }
async-trait = "0.1"
thiserror = "2"
