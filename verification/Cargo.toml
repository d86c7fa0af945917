[package]
name = "kmeans_parallel"
version = "0.1.0"
edition = "2021"
publish = false

[dependencies]
csv = "1"
num_cpus = "1"
rand = "0.8"
rand_xorshift = "0.3"
ndarray = "0.15"
linfa = "0.7"
linfa-reduction = "0.7"
plotters = "0.3"
