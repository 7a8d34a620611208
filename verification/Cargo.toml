[package]
name = "init_task"
version = "0.1.0"
edition = "2021"
publish = false

[dependencies]
path-clean = "*"
clap = { version = "*", features = ["derive"] }
whoami = "*"
