[package]
name = "yume_override"
version = "0.1.0"
edition = "2021"
publish = false

[dependencies]
age = "0.11"
boa_engine = "0.21"
serde = { version = "1", features = ["derive"] }
serde_json = "1"
serde_yaml = "0.9"
sha2 = "0.10"
