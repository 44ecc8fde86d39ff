[package]
name = "cashuw"
version = "0.1.0"
edition = "2021"
publish = false

[dependencies]
clap = { version = "*", features = ["derive"] }
home = "*"
minreq = { version = "*", features = ["json-using-serde"] }
serde = { version = "*", features = ["derive"] }
serde_json = "*"
sled = "*"
url = "*"
