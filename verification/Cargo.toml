[package]
name = "iplusone"
version = "0.1.0"
edition = "2021"
publish = false

[dependencies]
askama = "0.12"
axum = "0.7"
chrono = "0.4"
clap = { version = "4", features = ["derive"] }
env_logger = "0.10"
futures = "0.3"
log = "0.4"
mime_guess = "2"
rust-embed = "8"
serde = { version = "1", features = ["derive"] }
sqlx = { version = "0.7", default-features = false, features = ["runtime-tokio", "sqlite", "migrate"] }
tokio = { version = "1", features = ["rt-multi-thread", "macros", "net", "sync"] }
tower-http = { version = "0.5", features = ["fs"] }
