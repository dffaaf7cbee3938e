[package]
name = "mapped_input"
version = "0.1.0"
edition = "2021"
publish = false

[dependencies]
petgraph = "=0.6.5"
num-traits = "=0.2.19"
bevy = { version = "0.14", default-features = false }
