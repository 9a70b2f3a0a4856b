[package]
name = "mdtree"
version = "0.1.0"
edition = "2021"
publish = false

[dependencies]
ammonia = "4"
anyhow = "1"
axum = { version = "0.8", features = ["ws"] }
pulldown-cmark = { version = "*", default-features = false, features = ["html"] }
rand = "0.10"
rusqlite = { version = "*", features = ["bundled", "backup"] }
serde = { version = "1", features = ["derive"] }
serde_json = "1"
thiserror = "2"
tokio = { version = "1", features = ["macros", "net", "rt-multi-thread", "signal", "sync", "time"] }
tracing = "0.1"
ulid = "*"
