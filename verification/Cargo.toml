[package]
name = "scratch_card"
version = "1.1.0"
edition = "2021"
publish = false

[dependencies]
axum = "0.8"
getrandom = "0.3"
serde = { version = "1", features = ["derive"] }
serde_json = "1"
tokio = { version = "1", features = ["macros", "rt-multi-thread", "net"] }
tower-http = { version = "0.6", features = ["fs"] }
tracing = "0.1"
tracing-subscriber = { version = "0.3", features = ["env-filter"] }
