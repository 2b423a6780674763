[package]
name = "external_buffer"
version = "0.1.0"
edition = "2021"
publish = false

[dependencies]
sled = "0.34"
futures = "0.3"
tokio = { version = "1", features = ["rt"] }
log = "0.4"

[dev-dependencies]
tempfile = "3"
