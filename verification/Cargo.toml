[package]
name = "bezier_implicitizer"
version = "0.1.0"
edition = "2021"
publish = false

[dependencies]
nalgebra = "*"
plotters = "*"
rand = "*"
