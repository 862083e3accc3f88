[package]
name = "colmet"
version = "0.1.0"
edition = "2021"
publish = false

[dependencies]
regex = "*"
inotify = "*"
libc = "*"
gethostname = "*"
serde = { version = "*", features = ["derive"] }
rmp-serde = "*"
yaml-rust = "*"
zmq = "*"
clap = { version = "*", features = ["derive"] }
