[package]
name = "leds"
version = "0.1.0"
edition = "2021"
publish = false

[dependencies]
serde = { version = "1", features = ["derive"] }
serde_json = "1"
thiserror = "1"
clap = { version = "4", features = ["derive"] }
tracing-subscriber = { version = "0.3", features = ["env-filter"] }
usvg = { version = "0.44", default-features = false }
geo = "0.28"
uuid = { version = "1", features = ["v4"] }
