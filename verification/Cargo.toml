[package]
name = "sense_hat_meter"
version = "0.1.0"
edition = "2021"
publish = false

[dependencies]
cpal = "0.15"
ctrlc = "3"
libc = "0.2"
rand = "0.9"
