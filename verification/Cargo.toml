[package]
name = "mines"
version = "0.1.0"
edition = "2021"
publish = false

[dependencies]
crossterm = "=0.29.0"
rand = "=0.10.3"
