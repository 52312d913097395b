[package]
name = "termchat"
version = "0.1.0"
edition = "2021"
publish = false

[dependencies]
serde_json = "1"
serde = "1"
crossterm = "*"
openssl = "*"
cli-clipboard = "*"
