[package]
name = "diameter_library"
version = "0.1.0"
edition = "2021"
publish = false

[dependencies]
base64 = "0.22"
regex = "1"
roxmltree = "*"
zip = { version = "2", default-features = false, features = ["deflate"] }
rusqlite = { version = "*", features = ["bundled"] }
serde = { version = "1", features = ["derive"] }
log = "0.4"
