[package]
name = "orx-concurrent-vec"
version = "0.1.0"
edition = "2021"
publish = false

[dependencies]
orx-concurrent-option = "=1.6.0"
orx-fixed-vec = "=4.1.0"
orx-pinned-concurrent-col = "=3.0.1"
orx-pinned-vec = "=4.1.0"
orx-split-vec = "=4.1.1"
serde = { version = "=1.0.229", features = ["derive"] }
