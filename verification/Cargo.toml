[package]
name = "ring_bench"
version = "0.1.0"
edition = "2021"
publish = false

[dependencies]
actix = "0.5"
futures = "0.1"
time = "0.1"
