[package]
name = "ic_debug"
version = "0.1.0"
edition = "2021"
publish = false

[dependencies]
anyhow = "1"
axum = "0.7"
candid = "0.10"
ciborium = "0.2"
clap = { version = "4", features = ["derive"] }
dialoguer = "0.11"
proc-macro2 = { version = "1", features = ["span-locations"] }
quote = "1"
rusqlite = { version = "0.31", features = ["bundled"] }
serde = { version = "1", features = ["derive"] }
serde_bytes = "0.11"
serde_json = "1"
sha2 = "0.10"
similar = "2"
syn = { version = "2", features = ["full"] }
tokio = { version = "1", features = ["macros", "rt-multi-thread", "net"] }
tower-http = { version = "0.5", features = ["cors", "fs"] }
tracing = "0.1"
tracing-subscriber = { version = "0.3", features = ["env-filter"] }
uuid = { version = "1", features = ["serde"] }
