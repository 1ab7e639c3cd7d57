[package]
name = "aw-combined"
version = "0.1.0"
edition = "2021"
publish = false

[dependencies]
android_logger = "=0.13.3"
chrono = { version = "=0.4.45", features = ["serde"] }
clap = { version = "=4.6.7", features = ["derive"] }
dirs = "=5.0.1"
fancy-regex = "=0.13.0"
gethostname = "=0.4.3"
jni = "=0.21.1"
log = "=0.4.35"
log-panics = "=2.1.0"
rocket = { version = "=0.5.2", features = ["json"] }
schemars = { version = "=0.8.22", features = ["chrono"] }
serde = { version = "=1.0.229", features = ["derive"] }
serde_json = "=1.0.154"
toml = "=0.8.23"
