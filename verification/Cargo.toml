[package]
name = "shell_integration"
version = "0.1.0"
edition = "2021"
publish = false

[dependencies]
gethostname = "*"
libc = "0.2"
percent-encoding = "2"

[dev-dependencies]
tempfile = "3"
