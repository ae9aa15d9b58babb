[package]
name = "ggml_io"
version = "0.1.0"
edition = "2021"
publish = false

[dependencies]
bincode = { version = "2", default-features = false, features = ["std"] }
quote = "1"
syn = "2"
