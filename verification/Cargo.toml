[package]
name = "cheffu"
version = "0.1.0"
edition = "2021"
publish = false

[dependencies]
failure = "0.1"
failure_derive = "0.1"
maplit = "1"
nom = "3"
