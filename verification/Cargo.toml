[package]
name = "rewards"
version = "0.1.0"
edition = "2021"
publish = false

[dependencies]
cast = "*"
soroban-sdk = "*"
