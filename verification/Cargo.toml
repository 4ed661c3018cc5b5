[package]
name = "oarray"
version = "0.1.0"
edition = "2021"
publish = false

[dependencies]
rand = "0.5"
streaming-iterator = "0.1"
evco = "0.2"
pbr = "1"
clap = "2"
log = "0.4"
simplelog = "0.5"
ctrlc = "3"
