[package]
name = "nlprule"
version = "0.1.0"
edition = "2021"
publish = false

[dependencies]
onig = { version = "=6.5.3", default-features = false }
itertools = "=0.15.0"
serde = { version = "=1.0.229", features = ["derive"] }
log = "=0.4.34"
