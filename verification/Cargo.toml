[package]
name = "groth_setup"
version = "0.1.0"
edition = "2021"
publish = false

[dependencies]
rand = "0.8"
ark-ff = "0.4"
ark-relations = "0.4"
