[package]
name = "y1_clipboard"
version = "0.1.0"
edition = "2021"
publish = false

[dependencies]
md5 = "0.7"
percent-encoding = "2"
rusqlite = "*"
wayland-client = "0.31"
wayland-protocols = { version = "0.32", features = ["client", "staging"] }
libc = "0.2"
ctrlc = "3"
