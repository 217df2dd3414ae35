[package]
name = "rollkit"
version = "0.1.0"
edition = "2021"
publish = false

[dependencies]
rand = "*"
ariadne = "*"
rustyline = "*"
yansi = "*"
