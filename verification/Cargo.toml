[package]
name = "weave-core"
version = "0.1.0"
edition = "2021"
publish = false

[dependencies]
diffy = "0.4"
sem-core = "*"
serde = { version = "1", features = ["derive"] }
serde_json = "1"
tempfile = "3"
thiserror = "2"
