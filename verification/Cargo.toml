[package]
name = "starkeeper"
version = "0.1.0"
edition = "2021"
publish = false

[dependencies]
keyvalues-parser = "*"
serde = { version = "1", features = ["derive"] }
axum = "*"
tokio = { version = "1", features = ["rt-multi-thread", "macros", "net", "sync", "time"] }
ureq = "2"
rusqlite = { version = "*", features = ["bundled"] }
steam-vent = "*"
steam-vent-proto-steam = "*"
