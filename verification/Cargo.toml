[package]
name = "event_graph"
version = "0.1.0"
edition = "2021"
publish = false

[dependencies]
sha2 = "0.10"
hex = "0.4"
async-std = "1"
async-executor = "1"
smol = "1"
structopt = "0.3"
structopt-toml = "0.5"
serde = { version = "1", features = ["derive"] }
log = "0.4"
