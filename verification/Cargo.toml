[package]
name = "doorstop_reqif"
version = "0.1.0"
edition = "2021"
publish = false

[dependencies]
chrono = "*"
clap = { version = "*", features = ["derive"] }
doorstop-rs = "*"
reqif-rs = "*"
