[package]
name = "dialogue_engine"
version = "0.1.0"
edition = "2021"
publish = false

[dependencies]
linked-hash-map = "0.5"
yaml-rust = "0.4"
clap = "2"
regex = "1"
log = "0.4"
simple_logger = "1"
