[package]
name = "p2p"
version = "0.1.0"
edition = "2021"
publish = false

[dependencies]
rand = "0.8"
serde_json = "1"
clap = "2"
threadpool = "1"
memmap = "0.7"
