[package]
name = "veilcore_records"
version = "0.1.0"
edition = "2021"
publish = false

[dependencies]
serde_json = "1"
sha2 = "0.10"
unicode-normalization = "0.1"
