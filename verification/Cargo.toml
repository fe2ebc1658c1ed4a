[package]
name = "gridgames"
version = "0.1.0"
edition = "2021"
publish = false

[dependencies]
rand = "0.8"
axum = "0.7"
axum_typed_multipart = "0.11"
chrono = "0.4"
config = "0.14"
http-body-util = "0.1"
once_cell = "1"
serde = { version = "1", features = ["derive"] }
tokio = { version = "1", features = ["macros", "rt-multi-thread", "net"] }
tower = "0.4"
tower-http = { version = "0.5", features = ["fs", "trace", "set-header"] }
tower-sessions = "0.12"
tracing = "0.1"
tracing-appender = "0.2"
tracing-subscriber = "0.3"
