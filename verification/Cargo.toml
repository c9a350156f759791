[package]
name = "tdx_measure"
version = "0.1.0"
edition = "2021"
publish = false

[dependencies]
sha2 = "0.10"
hex = "0.4"
object = "0.36"
serde = { version = "1", features = ["derive"] }
serde_json = "1"
serde-human-bytes = "*"
anyhow = "1"
clap = { version = "4", features = ["derive"] }
fs-err = "*"
log = "0.4"
tempfile = "3"
tracing-subscriber = "0.3"
