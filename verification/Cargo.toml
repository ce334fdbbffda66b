[package]
name = "jrl"
version = "0.1.0"
edition = "2021"
publish = false

[dependencies]
chrono = "0.4"
crossterm = "*"
home = "*"
rand = "0.9"
rustyline = "*"
