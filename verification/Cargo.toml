[package]
name = "flight_network"
version = "0.1.0"
edition = "2021"
publish = false

[dependencies]
csv = "1"
petgraph = "0.6"
