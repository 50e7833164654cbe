[package]
name = "trust_node"
version = "0.1.0"
edition = "2021"
publish = false

[dependencies]
chrono = "*"
uuid = { version = "*", features = ["v4"] }
libp2p = { version = "*", default-features = false, features = ["tokio", "tcp", "noise", "yamux", "kad", "identify", "request-response", "macros", "ed25519"] }
serde = { version = "*", features = ["derive"] }
serde_json = "*"
tokio = { version = "*", features = ["rt-multi-thread", "macros", "sync", "time", "net"] }
axum = "*"
tower-http = { version = "*", features = ["cors"] }
sqlx = { version = "*", default-features = false, features = ["sqlite", "runtime-tokio"] }
clap = { version = "*", features = ["derive"] }
tracing = "*"
tracing-subscriber = { version = "*", features = ["env-filter"] }
anyhow = "*"
futures = "*"
async-trait = "*"
