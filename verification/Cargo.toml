[package]
name = "samplify_rs"
version = "0.1.0"
edition = "2021"
publish = false

[dependencies]
fake = "2.9"
rand = "0.8"
serde_json = "1"
syn = "2"
uuid = { version = "1", features = ["v4"] }
