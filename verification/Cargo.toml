[package]
name = "justdep"
version = "0.1.0"
edition = "2021"
publish = false

[dependencies]
clap = "2"
nom = "7"
num-bigint = "0.4"
num-traits = "0.2"
