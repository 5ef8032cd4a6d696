[package]
name = "templog"
version = "0.1.0"
edition = "2021"

[dependencies]
kern = "*"
plotlib = "*"
