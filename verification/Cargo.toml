[package]
name = "mutilate"
version = "0.1.0"
edition = "2021"
publish = false

[dependencies]
argh = "0.1"
hypher = "0.1"
rand = "0.8"
rand_xoshiro = "0.6"
typst-syntax = "0.11"
