[package]
name = "graphpart"
version = "0.1.0"
edition = "2021"
publish = false

[dependencies]
faer = "=0.22.6"
forceatlas2 = "0.6"
num-traits = "=0.2.19"
rand = "=0.8.8"
rand_distr = "=0.4.3"
sprs = "=0.11.6"
