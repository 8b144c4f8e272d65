[package]
name = "gitmeta"
version = "0.1.0"
edition = "2021"
publish = false

[dependencies]
gix = { version = "=0.90.0", default-features = false, features = ["revision", "sha1", "sha256"] }
gix-hash = { version = "=0.28.1", features = ["sha1", "sha256"] }
gix-ref = "=0.69.1"
pyo3 = "=0.30.1"
