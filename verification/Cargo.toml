[package]
name = "snapshot_restore"
version = "0.1.0"
edition = "2021"
publish = false

[dependencies]
roaring = "0.10"
tokio = { version = "1", features = ["fs", "io-util", "rt"] }
rand = "0.8"
pwhash = "1"
hostname = "0.4"
arc-swap = "1"
tracing = "0.1"
tracing-appender = "0.2"
