[package]
name = "logup_gkr"
version = "0.1.0"
edition = "2021"
publish = false

[dependencies]
ark-std = "0.6.0"
