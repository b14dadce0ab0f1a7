[package]
name = "ferrosift_operations"
version = "0.1.0"
edition = "2021"
publish = false

[dependencies]
num-bigint = "0.4"
num-traits = "0.2"
digest = "0.10"
