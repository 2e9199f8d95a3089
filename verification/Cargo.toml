[package]
name = "marie_lookup"
version = "0.1.0"
edition = "2021"
publish = false

[dependencies]
rusqlite = { version = "*", features = ["bundled"] }
serde = { version = "1", features = ["derive"] }
arboard = "3"
enigo = "*"
tokio = { version = "1", features = ["time"] }
