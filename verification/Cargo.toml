[package]
name = "memapi"
version = "0.1.0"
edition = "2021"
publish = false

[dependencies]
im = "*"
itertools = "*"
inferno = { version = "*", default-features = false }
libc = "*"
page_size = "*"
procinfo = "*"
redhook = "*"
