[package]
name = "hex2bin"
version = "0.1.0"
edition = "2021"
publish = false

[dependencies]
rayon = "*"
num_cpus = "*"
memmap = "*"
structopt = "*"
log = "*"
env_logger = "*"
failure = "*"
