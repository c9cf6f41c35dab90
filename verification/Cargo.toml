[package]
name = "sysunit"
version = "0.1.0"
edition = "2021"
publish = false

[dependencies]
rust-crypto = "0.2"
url = "*"
clap = "2"
colored = "*"
env_logger = "*"
log = "*"
rpassword = "5"
unicode-truncate = "*"
ssh2 = "*"

[dev-dependencies]
shell-escape = "*"
