[package]
name = "mafia_server"
version = "0.1.0"
edition = "2021"
publish = false

[dependencies]
rand = "=0.7.3"
rocket = "0.5"
