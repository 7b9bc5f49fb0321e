[package]
name = "battle_royale"
version = "0.1.0"
edition = "2021"

[dependencies]
rand = "*"
rand_distr = "*"
