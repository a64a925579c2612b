[package]
name = "par_dfs"
version = "0.1.0"
edition = "2021"
publish = false

[dependencies]
rayon = "1"
futures = "0.3"
async-trait = "0.1"
pin-project = "1"
