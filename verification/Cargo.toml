[package]
name = "vecmap"
version = "0.1.0"
edition = "2021"
publish = false

[dependencies]
dashmap = "5.5"
generic_singleton = "*"
itertools = "0.12"
