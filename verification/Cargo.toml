[package]
name = "ku"
version = "0.2.0"
edition = "2021"
publish = false

[dependencies]
base64 = "0.13"
clap = "2"
