[package]
name = "mac-shell"
version = "0.1.0"
edition = "2021"
publish = false

[dependencies]
libc = "0.2"
crossterm = "*"
chrono = "0.4"
users = "0.11"
xattr = "1"
