[package]
name = "utp"
version = "0.1.0"
edition = "2021"
publish = false

[dependencies]
rand = "0.8"
num = "0.4"
log = "0.4"
libc = "0.2"
nix = "0.26"

[dev-dependencies]
quickcheck = "1"
