[package]
name = "ondris"
version = "0.1.0"
edition = "2021"
publish = false

[dependencies]
aes-gcm = "=0.10.3"
anyhow = "=1.0.104"
argon2 = "=0.5.3"
blake3 = "=1.8.7"
clap = { version = "=4.6.7", features = ["derive"] }
ed25519-dalek = "=2.2.0"
opencl3 = "=0.9.5"
rand = "=0.8.8"
reqwest = { version = "=0.12.28", default-features = false, features = ["blocking", "json"] }
rpassword = "=7.5.4"
serde = { version = "=1.0.229", features = ["derive"] }
serde_json = { version = "=1.0.154", features = ["preserve_order"] }
sled = "=0.34.7"
tracing = "=0.1.44"
tracing-subscriber = "=0.3.23"

[dev-dependencies]
rand_xoshiro = "=0.6.0"
