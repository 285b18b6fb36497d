[package]
name = "mea"
version = "0.1.0"
edition = "2021"
publish = false

[dependencies]
slab = "0.4"
crossbeam-queue = "0.3"
futures-core = "0.3"
pin-project = "1"
pollster = "0.4"
