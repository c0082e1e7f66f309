[package]
name = "cosy"
version = "0.1.0"
edition = "2021"

[dependencies]
mime = "0.3"
mime_guess = "2"
url = "2"
