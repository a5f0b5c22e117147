[package]
name = "raknet_reorder"
version = "0.1.0"
edition = "2021"
publish = false

[dependencies]
bytes = "1"
futures = "0.3"
pin-project-lite = "0.2"
tracing = "0.1"
