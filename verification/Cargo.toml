[package]
name = "frog"
version = "0.1.0"
edition = "2021"
publish = false

[dependencies]
regex = "1"
serde = { version = "1", features = ["derive"] }
serde_json = "1"
tinyfiledialogs = "3"
web-view = "0.7"
winapi = { version = "0.3", features = ["shellscalingapi"] }
