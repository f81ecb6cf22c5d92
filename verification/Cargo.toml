[package]
name = "remindme"
version = "0.1.0"
edition = "2021"
publish = false

[dependencies]
jiff = "*"
serde = { version = "*", features = ["derive"] }
serde_json = "*"
