[package]
name = "flock_mhot"
version = "0.1.0"
edition = "2021"
publish = false

[dependencies]
sha2 = "=0.10.9"
rayon = "=1.12.0"
serde = { version = "=1.0.229", features = ["derive"] }
bincode = "=1.3.3"

[dev-dependencies]
blake3 = { version = "1", default-features = false, features = ["pure"] }
