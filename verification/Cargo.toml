[package]
name = "webserv"
version = "0.1.0"
edition = "2021"
publish = false

[dependencies]
httpdate = "*"
mio = { version = "*", features = ["os-poll", "net"] }
serde = { version = "*", features = ["derive"] }
serde_yaml = "*"
urlencoding = "*"
uuid = { version = "*", features = ["v4"] }
