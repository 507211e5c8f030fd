[package]
name = "marker_fixer"
version = "0.1.0"
edition = "2021"
publish = false

[dependencies]
clap = { version = "4", features = ["derive"] }
quick-xml = "0.36"
serde = { version = "1", features = ["derive"] }
serde_json = "1"
tempfile = "3"
thiserror = "1"
ureq = "2"
uuid = { version = "1", features = ["v4"] }
