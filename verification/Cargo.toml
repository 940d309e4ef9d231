[package]
name = "json_signature"
version = "0.1.0"
edition = "2021"

[dependencies]
md5 = "=0.7.0"
serde_json = { version = "=1.0.154", features = ["arbitrary_precision"] }
