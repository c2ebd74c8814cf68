[package]
name = "bode_response"
version = "0.1.0"
edition = "2021"

[dependencies]
ndarray = "*"
num = "*"
plotters = "*"
