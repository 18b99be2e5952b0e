[package]
name = "kvs"
version = "0.1.0"
edition = "2021"
publish = false

[dependencies]
clap = "3"
env_logger = "0.10"
log = "0.4"
num_cpus = "1"
rayon = "1"
sled = "0.34"
