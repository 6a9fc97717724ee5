[package]
name = "ring_election"
version = "0.1.0"
edition = "2021"
publish = false

[dependencies]
crossbeam = "*"
