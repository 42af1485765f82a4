[package]
name = "leftright"
version = "0.1.0"
edition = "2021"
publish = false

[dependencies]
image = "0.24"
tokio = { version = "1", features = ["rt-multi-thread", "fs"] }
