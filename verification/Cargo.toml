[package]
name = "starky"
version = "0.1.0"
edition = "2021"
publish = false

[dependencies]
ff_ce = "0.11"
num-bigint = "0.4"
num-traits = "0.2"
poseidon-rs = "*"
winter-crypto = "0.4"
winter-math = "0.4"
winter-utils = "0.4"

[dev-dependencies]
winter-rand-utils = "0.4"
