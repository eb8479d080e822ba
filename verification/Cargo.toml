[package]
name = "aggstats"
version = "0.1.0"
edition = "2021"
publish = false

[dependencies]
memmap2 = "*"
threadpool = "*"
rand = "*"
rand_distr = "*"
rayon = "*"
ryu = "*"
