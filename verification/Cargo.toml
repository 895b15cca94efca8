[package]
name = "evolvingstring"
version = "0.1.0"
edition = "2021"
publish = false

[dependencies]
base64 = "0.21"
chrono = "0.4"
rand = "0.8"
sha2 = "0.10"

[dev-dependencies]
serde_json = "1"
