[package]
name = "plua"
version = "0.1.0"
edition = "2021"
publish = false

[dependencies]
dynasmrt = "*"
dynasm = "*"
structopt = "0.3"
thiserror = "1"
