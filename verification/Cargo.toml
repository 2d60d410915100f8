[package]
name = "rs_poker"
version = "0.1.0"
edition = "2021"
publish = false

[dependencies]
rand = "0.9"
fixedbitset = "0.5"
vec_map = "0.8"
