[package]
name = "yajq"
version = "1.0.0"
edition = "2021"
publish = false

[dependencies]
clap = { version = "2", default-features = false }
serde_json = "1"
thiserror = "1"
