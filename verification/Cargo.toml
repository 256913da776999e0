[package]
name = "server"
version = "0.1.0"
edition = "2021"
publish = false

[dependencies]
uuid = { version = "=1.29.0", features = ["v4", "v7"] }
serde = { version = "=1.0.229", features = ["derive"] }
serde_yaml = "=0.9.34"
serde_json = "=1.0.154"
toml = "=0.8.23"
rand_core = { version = "=0.6.4", features = ["getrandom"] }
base64 = "0.22"
