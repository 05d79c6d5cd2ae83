[package]
name = "openbrs"
version = "0.1.0"
edition = "2021"
publish = false

[dependencies]
sha3 = "*"
base64 = "*"
rand = "*"
aes-gcm = "*"
yescrypt = "*"
tar = "*"
xz = "*"
