[package]
name = "ruma_lean"
version = "0.1.0"
edition = "2021"
publish = false

[dependencies]
anyhow = "1"
clap = { version = "4", features = ["derive", "env"] }
ed25519-consensus = "2"
p3-baby-bear = "*"
serde = { version = "1", features = ["derive"] }
serde_json = "1"
sp1-verifier = "*"
ureq = { version = "2", features = ["json"] }
wasm-bindgen = "0.2"
web-time = "1"
