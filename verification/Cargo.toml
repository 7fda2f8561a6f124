[package]
name = "rost_west"
version = "0.1.0"
edition = "2021"
publish = false

[dependencies]
rand = "0.9"
rand_pcg = "0.9"
glam = "0.29"
png = "0.17"
cxx = "1"
lazy_static = "1"
