[package]
name = "pidnest"
version = "1.0.0"
edition = "2021"
publish = false

[dependencies]
owo-colors = "*"
nix = { version = "*", features = ["user"] }
clap = { version = "*", features = ["derive"] }
ctrlc = "*"
