[package]
name = "scoop_search"
version = "0.1.0"
edition = "2021"
publish = false

[dependencies]
nucleo-matcher = "0.3"
strsim = "0.11"
serde_json = "1"
ureq = { version = "1", features = ["json"] }
