[package]
name = "brontes"
version = "0.1.0"
edition = "2021"
publish = false

[dependencies]
alloy-primitives = "*"
clap = { version = "4", features = ["derive"] }
eyre = "0.6"
malachite = "*"
petgraph = "0.6"
rayon = "1"
tokio = { version = "1", features = ["rt-multi-thread", "macros", "sync"] }
tracing = "0.1"
