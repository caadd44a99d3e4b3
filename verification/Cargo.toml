[package]
name = "autofilm"
version = "0.1.0"
edition = "2021"
publish = false

[dependencies]
alist = "*"
chrono = "0.4"
chrono-tz = "*"
regex = "1"
reqwest = { version = "*", default-features = false, features = ["json", "rustls-tls"] }
serde = { version = "1", features = ["derive"] }
serde_json = "1"
thiserror = "*"
tokio = { version = "1", features = ["fs", "rt-multi-thread", "macros"] }
tracing = "0.1"
tracing-appender = "0.2"
tracing-subscriber = "0.3"
urlencoding = "2"
