[package]
name = "onesubml"
version = "0.1.0"
edition = "2021"
publish = false

[dependencies]
lasso = "=0.7.3"
clap = { version = "=4.6.7", features = ["derive", "env"] }
