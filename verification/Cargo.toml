[package]
name = "shopping"
version = "0.1.0"
edition = "2021"
publish = false

[dependencies]
chrono = "*"
email_address = "*"
uuid = { version = "*", features = ["v4"] }
