[package]
name = "variant"
version = "0.1.0"
edition = "2021"
publish = false

[dependencies]
rust_decimal = { version = "1", default-features = false, features = ["std"] }
serde_json = { version = "1", features = ["arbitrary_precision", "preserve_order"] }
