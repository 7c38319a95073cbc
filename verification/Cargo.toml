[package]
name = "citlali"
version = "0.1.0"
edition = "2021"
publish = false

[dependencies]
axum = "0.8"
prometheus = { version = "0.14", default-features = false, features = ["process"] }
serde = { version = "1", features = ["derive"] }
thiserror = "2"
tokio = { version = "1", features = ["macros", "net", "rt-multi-thread", "signal", "sync", "time"] }
