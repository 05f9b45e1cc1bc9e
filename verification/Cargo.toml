[package]
name = "aerokv"
version = "0.1.0"
edition = "2021"
publish = false

[dependencies]
rs_merkle = "1.4"
hex = "0.4"
base64 = "0.22"
serde = { version = "1", features = ["derive"] }
serde_json = "1"
rand = "0.8"
crossbeam = "0.8"
dashmap = "6"
solana-program = "2.1"
tokio = { version = "1", features = ["full"] }
axum = "0.8"
tower-http = { version = "0.6", features = ["cors"] }
reqwest = { version = "0.12", default-features = false, features = ["json"] }
openraft = { version = "0.9", features = ["serde"] }
dotenv = "0.15"
simplelog = "0.12"
time = { version = "0.3", features = ["macros"] }
log = "0.4"
thiserror = "2"
