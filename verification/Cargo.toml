[package]
name = "file_transfer"
version = "0.1.0"
edition = "2021"
publish = false

[dependencies]
bincode = "=1.3.3"
crossbeam-channel = "=0.3.9"
cursive = { version = "0.21", default-features = false, features = ["crossterm-backend"] }
laminar = "=0.3.2"
serde = { version = "=1.0.229", features = ["derive"] }
