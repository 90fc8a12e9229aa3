[package]
name = "prokopakop"
version = "0.1.0"
edition = "2021"
publish = false

[dependencies]
fxhash = "0.2"
rand = "0.9"
clap = "4"
rayon = "1"
