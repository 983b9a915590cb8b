[package]
name = "beam_search"
version = "0.1.0"
edition = "2021"
publish = false

[dependencies]
proconio = "0.4.5"
rand = "0.8.5"
rand_pcg = "0.3.1"
