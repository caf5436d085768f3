[package]
name = "murmur"
version = "0.1.0"
edition = "2021"
publish = false

[dependencies]
blake3 = { version = "=1.8.7", default-features = false, features = ["std", "pure"] }
ed25519-dalek = "=2.2.0"
flate2 = "=1.1.10"
aes-gcm = "=0.10.3"
hkdf = "=0.12.4"
sha2 = "=0.10.9"
data-encoding = "=2.11.1"
rand = "=0.8.8"
serde = { version = "=1.0.229", features = ["derive"] }
toml = "=0.8.23"
anyhow = "=1.0.104"
similar = "=2.7.0"

[dev-dependencies]
postcard = { version = "1", default-features = false, features = ["alloc"] }
