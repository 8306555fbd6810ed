[package]
name = "suz_sim"
version = "0.1.0"
edition = "2021"
publish = false

[dependencies]
rand = "0.9"
glam = "0.29"
rayon = "1"
subsphere = "*"
