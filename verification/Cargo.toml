[package]
name = "imessage_undeleter"
version = "0.1.0"
edition = "2021"
publish = false

[dependencies]
chrono = "*"
lzma-rs = "*"
protobuf = "*"
rusqlite = { version = "*", features = ["bundled"] }
crabapple = "*"
