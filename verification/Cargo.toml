[package]
name = "sportshub"
version = "0.1.0"
edition = "2021"
publish = false

[dependencies]
anyhow = "1"
axum = "0.7"
chrono = "=0.4.45"
clap = { version = "4", features = ["derive"] }
diesel = { version = "2", features = ["sqlite"] }
headless_chrome = "=0.9.0"
libsqlite3-sys = { version = "*", features = ["bundled"] }
serde = { version = "1", features = ["derive"] }
serde_json = "1"
tl = "=0.7.8"
tokio = { version = "1", features = ["rt-multi-thread", "macros", "net"] }
urlencoding = "=2.1.3"
