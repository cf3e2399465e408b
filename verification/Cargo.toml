[package]
name = "pcg_dungeon"
version = "0.1.0"
edition = "2021"
publish = false

[dependencies]
rand = "0.8"
threadpool = "1"
num_cpus = "1"
toml = "0.8"
