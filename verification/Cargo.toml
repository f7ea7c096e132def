[package]
name = "rssh"
version = "0.1.0"
edition = "2021"
publish = false

[dependencies]
base64 = "=0.13.1"
rust-crypto = "=0.2.36"
rpassword = "=7.5.4"
libc = "=0.2.190"
