[package]
name = "bcf"
version = "0.1.0"
edition = "2021"
publish = false

[dependencies]
codespan-reporting = "*"
time = { version = "*", features = ["formatting", "parsing"] }
rand = "*"
