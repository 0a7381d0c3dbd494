[package]
name = "guardc"
version = "0.1.0"
edition = "2021"
publish = false

[dependencies]
flux-isa = "*"
indexmap = "2"
serde = { version = "1", features = ["derive"] }
serde_json = "1"
sha2 = "0.10"
thiserror = "1"
