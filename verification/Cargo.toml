[package]
name = "reader_core"
version = "0.1.0"
edition = "2021"
publish = false

[dependencies]
serde = { version = "=1.0.229", features = ["derive"] }
bincode = "=1.3.3"
rbook = "=0.7.12"
egui = "0.31"
