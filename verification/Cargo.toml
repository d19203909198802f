[package]
name = "loc"
version = "0.1.0"
edition = "2021"
publish = false

[dependencies]
memchr = "2"
clap = { version = "4", features = ["derive"] }
num-format = { version = "0.4", features = ["with-system-locale"] }
rayon = "1"
termcolor = "1"
