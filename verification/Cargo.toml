[package]
name = "memory_partitions"
version = "0.1.0"
edition = "2021"
publish = false

[dependencies]
diesel = { version = "=1.4.8", features = ["sqlite"] }
serde = { version = "1", features = ["derive"] }
