[package]
name = "polyphase"
version = "0.1.0"
edition = "2021"
publish = false

[dependencies]
fxhash = "0.2"
rand = "0.7"
rand_pcg = "0.2"
statrs = "0.13"
