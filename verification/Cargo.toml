[package]
name = "du_core"
version = "0.1.0"
edition = "2021"
publish = false

[dependencies]
lazy_static = "1"
rand = "0.8"
rand_distr = "0.4"
rayon = "1"
vulkano = "0.19"
vulkano-shaders = "0.19"
