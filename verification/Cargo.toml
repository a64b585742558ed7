[package]
name = "conway"
version = "0.1.0"
edition = "2021"
publish = false

[dependencies]
drawille = "*"
r2d2 = "*"
r2d2_sqlite = "*"
rusqlite = { version = "*", features = ["bundled"] }
