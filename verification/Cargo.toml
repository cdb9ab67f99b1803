[package]
name = "rankhaus"
version = "0.1.0"
edition = "2021"
publish = false

[dependencies]
chrono = "*"
clap = { version = "*", features = ["derive"] }
inquire = "*"
rand = "*"
rustyline = "*"
serde = { version = "*", features = ["derive"] }
serde_json = "*"
shlex = "*"
uuid = { version = "*", features = ["v4"] }
