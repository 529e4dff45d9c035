[package]
name = "public_api"
version = "0.1.0"
edition = "2021"
publish = false

[dependencies]
hashbag = "0.1"
