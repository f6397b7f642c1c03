[package]
name = "rcple"
version = "0.1.0"
edition = "2021"
publish = false

[dependencies]
anyhow = "1"
clap = "3"
crossbeam-channel = "0.5"
