[package]
name = "separating_image"
version = "0.1.0"
edition = "2021"
publish = false

[dependencies]
chrono = "*"
fern = "*"
lazy_static = "*"
libc = "*"
log = "*"
structopt = "*"
