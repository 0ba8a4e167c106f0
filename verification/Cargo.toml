[package]
name = "aw_query"
version = "0.1.0"
edition = "2021"
publish = false

[dependencies]
aw-models = "*"
chrono = "0.4"
gethostname = "*"
reqwest = { version = "0.11", default-features = false, features = ["blocking", "json"] }
serde = { version = "1", features = ["derive"] }
serde_derive = "1"
serde_json = "1"
