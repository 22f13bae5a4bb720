[package]
name = "boston_stats"
version = "0.1.0"
edition = "2021"

[dependencies]
csv = "1"
rusty-machine = "*"
