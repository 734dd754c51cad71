[package]
name = "scc"
version = "0.4.0"
edition = "2021"
publish = false

[dependencies]
crossbeam-epoch = "0.9"
