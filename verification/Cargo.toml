[package]
name = "nordselect"
version = "2.0.0"
edition = "2021"
publish = false

[dependencies]
clap = "*"
reqwest = { version = "*", default-features = false }
serde = "*"
serde_derive = "*"
serde_json = "*"
tokio = { version = "*", features = ["rt-multi-thread", "macros"] }
urlparse = "*"
