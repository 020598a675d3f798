[package]
name = "gamerobotfactory"
version = "0.1.0"
edition = "2021"
publish = false

[dependencies]
rayon = "1"
uuid = { version = "1", features = ["v4", "serde"] }
serde = { version = "1", features = ["derive"] }
serde_json = "1"
axum = { version = "0.7", features = ["ws"] }
tokio = { version = "1", features = ["rt-multi-thread", "macros", "sync", "time", "net"] }
tracing = "0.1"
tracing-subscriber = { version = "0.3", features = ["env-filter"] }
prometheus = { version = "0.13", default-features = false }
rusqlite = { version = "0.31", features = ["bundled"] }
