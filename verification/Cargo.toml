[package]
name = "parallel_astar"
version = "0.1.0"
edition = "2021"
publish = false

[dependencies]
rand = "0.8"
crossbeam = "0.8"
atomic = "0.5"
clap = "2"
