[package]
name = "melon"
version = "0.1.0"
edition = "2021"
publish = false

[dependencies]
ark-bn254 = "=0.3.0"
ark-ec = "=0.3.0"
ark-ff = "=0.3.0"
ark-serialize = "=0.3.0"
rand = { version = "=0.8.8", features = ["small_rng"] }
serde = { version = "1", features = ["derive"] }
serde_json = "1"
thiserror = "1"
