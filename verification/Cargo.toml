[package]
name = "genetic_algorithm_fn"
version = "0.1.0"
edition = "2021"
publish = false

[dependencies]
rand = "0.8"
crossbeam-utils = "0.8"
genetic-algorithm-traits = "*"
