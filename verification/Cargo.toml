[package]
name = "eternity_solver"
version = "0.1.0"
edition = "2021"
publish = false

[dependencies]
rand = "0.9"
md5 = "*"
num_cpus = "*"
dirs = "*"
log = "*"
env_logger = "*"
thousands = "*"
