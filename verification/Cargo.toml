[package]
name = "mandelbrot"
version = "0.1.0"
edition = "2021"
publish = false

[dependencies]
num = "0.4"
image = "0.13.0"
crossbeam = "0.8"
