[package]
name = "inline_ipld"
version = "0.1.0"
edition = "2021"
publish = false

[dependencies]
libipld = { version = "=0.8.2", features = ["dag-cbor", "dag-json"] }
