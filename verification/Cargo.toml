[package]
name = "file-server"
version = "0.1.0"
edition = "2021"
publish = false

[dependencies]
chrono = "0.4"
mime_guess = "2"
percent-encoding = "2"
threadpool = "1.8"
tiny_http = "0.12"
