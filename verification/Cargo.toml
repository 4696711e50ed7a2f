[package]
name = "chess_backend"
version = "0.1.0"
edition = "2021"
publish = false

[dependencies]
rayon = "*"
serde = { version = "*", features = ["derive"] }
serde_json = "*"
mlua = { version = "*", features = ["lua54", "vendored"] }
