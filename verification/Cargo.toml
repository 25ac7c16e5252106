[package]
name = "geolite_lookup"
version = "0.1.0"
edition = "2021"
publish = false

[dependencies]
byteorder = "=1.5.0"
memmap2 = "=0.9.12"
csv = "=1.4.0"
serde = { version = "=1.0.229", features = ["derive"] }
thiserror = "=1.0.69"
anyhow = "=1.0.104"
aya = "=0.13.1"
tokio = { version = "=1.54.1", features = ["full"] }
rusqlite = { version = "=0.41.1", features = ["bundled"] }
env_logger = "=0.11.11"
