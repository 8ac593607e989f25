[package]
name = "text_buffer"
version = "0.1.0"
edition = "2021"
publish = false

[dependencies]
clap = { version = "*", features = ["derive"] }
console = "*"
crossterm = "*"
log = "*"
structured-logger = "*"
unicode-width = "*"
