[package]
name = "xnote_core"
version = "0.1.0"
edition = "2021"
publish = false

[dependencies]
anyhow = "=1.0.104"
ignore = "=0.4.34"
notify = "=6.1.1"
pulldown-cmark = { version = "=0.12.2", default-features = false }
ropey = "=1.6.1"
serde = { version = "=1.0.229", features = ["derive"] }
serde_json = "=1.0.154"
sysinfo = "0.30"
ureq = { version = "=2.12.1", features = ["json"] }
