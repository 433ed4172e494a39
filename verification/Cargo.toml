[package]
name = "pie"
version = "0.1.0"
edition = "2021"
publish = false

[dependencies]
pie_graph = "=0.0.1"
sha2 = "=0.11.1"
walkdir = "=2.5.0"
serde = { version = "=1.0.229", features = ["derive"] }
