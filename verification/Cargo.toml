[package]
name = "bee_node"
version = "0.1.0"
edition = "2021"
publish = false

[dependencies]
rand = "0.7"
rand_pcg = "0.2"
async-std = "1"
futures = "0.3"
flume = "0.10"
log = "0.4"
