[package]
name = "bitctx"
version = "0.3.0"
edition = "2021"
publish = false

[dependencies]
anyhow = "1"
chrono = "0.4"
clap = { version = "4", features = ["derive", "env"] }
dirs = "5"
fs2 = "0.4"
serde = { version = "1", features = ["derive"] }
serde_json = "1"
twox-hash = "2"

[dev-dependencies]
tempfile = "3"
