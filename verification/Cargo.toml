[package]
name = "hkask_templates"
version = "0.1.0"
edition = "2021"
publish = false

[dependencies]
sha2 = "=0.10.9"
hex = "=0.4.3"
serde = { version = "=1.0.229", features = ["derive"] }
serde_json = "=1.0.154"
serde_yaml = "=0.9.34"
chrono = "=0.4.45"
uuid = { version = "=1.29.0", features = ["v4"] }
rusqlite = { version = "=0.31.0", features = ["bundled"] }
minijinja = "2"
tokio = { version = "1", features = ["rt", "time", "macros"] }
reqwest = { version = "0.12", default-features = false, features = ["json"] }
