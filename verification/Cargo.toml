[package]
name = "rustfs2"
version = "0.1.0"
edition = "2021"
publish = false

[dependencies]
sha2 = "*"
rand = "*"
num = "*"
libc = "*"
nix = { version = "*", features = ["process", "signal"] }
