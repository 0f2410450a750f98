[package]
name = "tscp"
version = "0.1.0"
edition = "2021"
publish = false

[dependencies]
sha2 = "0.10"
blake3 = "1"
p3-field = "*"
p3-baby-bear = "*"
p3-symmetric = "*"
p3-merkle-tree = "*"
p3-commit = "*"
p3-matrix = "*"
p3-challenger = "*"
p3-dft = "*"
p3-fri = "*"
serde = { version = "1", features = ["derive"] }
serde_json = "1"
serde_cbor = "0.11"
thiserror = "1"
anyhow = "1"
tokio = { version = "1", features = ["full"] }
axum = "0.7"
prometheus = "0.13"
parking_lot = "0.12"
uuid = { version = "1", features = ["v4"] }
