[package]
name = "unipn"
version = "0.1.0"
edition = "2021"
publish = false

[dependencies]
serde = { version = "1", features = ["derive"] }
thiserror = "2"
num-bigint = "0.4"
num-rational = "0.4"
num-traits = "0.2"
num-integer = "0.1"
indexmap = "2"
rustc-hash = "2"
smallvec = "1"
petgraph = "0.8"
