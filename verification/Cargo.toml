[package]
name = "metasrv"
version = "0.1.0"
edition = "2021"
publish = false

[dependencies]
arrow-format = { version = "=0.8.1", default-features = false, features = ["flight-data"] }
prost = "=0.11.9"
hmac-sha256 = "*"
serde = { version = "=1.0.229", features = ["derive"] }
serde_json = "=1.0.154"
tonic = "=0.14.6"
futures = "=0.3.34"
async-trait = "=0.1.92"
