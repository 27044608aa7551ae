[package]
name = "spatial"
version = "0.1.0"
edition = "2021"
publish = false

[dependencies]
eisenstein = "=0.3.1"
snapkit = "=0.1.0"
nalgebra = "=0.33.3"
cathedral-probe = "=0.2.0"
serde = { version = "=1.0.229", features = ["derive"] }
serde_json = "=1.0.154"
anyhow = "=1.0.104"
zed_extension_api = "=0.7.0"
