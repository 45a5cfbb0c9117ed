[package]
name = "miniseed"
version = "0.1.0"
edition = "2021"

[dependencies]
chrono = "0.4"
glob = "0.3"
num = "0.4"
