[package]
name = "todols"
version = "0.1.0"
edition = "2021"
publish = false

[dependencies]
regex = "*"
lexicmp = "*"
uuid = { version = "*", features = ["v4"] }
clap = { version = "*", features = ["derive"] }
comfy-table = "*"
chrono = "*"
whoami = "*"
