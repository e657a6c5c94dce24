[package]
name = "conduit-core"
version = "2.1.1"
edition = "2021"
publish = false

[dependencies]
serde_json = "1"
subtle = "2"
sonic-rs = "*"
serde = { version = "1", features = ["derive"] }
http = "1"
getrandom = "0.3"
tauri = { version = "2", default-features = false }
