[package]
name = "kvs"
version = "0.1.0"
edition = "2021"
publish = false

[dependencies]
clap = "*"
crossbeam-skiplist = "*"
env_logger = "*"
log = "*"
num_cpus = "*"
rayon = "*"
sled = "*"
