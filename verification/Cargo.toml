[package]
name = "nlprule"
version = "0.1.0"
edition = "2021"
publish = false

[dependencies]
onig = { version = "=6.5.3", default-features = false }
serde = { version = "=1.0.229", features = ["derive"] }
bincode = "=1.3.3"
log = "=0.4.34"
