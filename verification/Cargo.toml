[package]
name = "nsga"
version = "0.1.0"
edition = "2021"
publish = false

[dependencies]
rand = "0.8"
peeking_take_while = "*"
