[package]
name = "netsys"
version = "0.1.0"
edition = "2021"
publish = false

[dependencies]
serde_json = "*"
anyhow = "*"
socket2 = "*"
ctrlc = "*"
termios = "*"
