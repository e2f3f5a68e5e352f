[package]
name = "scarpet"
version = "0.1.0"
edition = "2021"
publish = false

[dependencies]
rowan = "0.15"
stacker = "0.1"
regex = "1"
