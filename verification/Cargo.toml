[package]
name = "carbide"
version = "0.1.0"
edition = "2021"
publish = false

[dependencies]
chrono = "*"
clap = "*"
mlua = { version = "*", features = ["lua54", "vendored"] }
