[package]
name = "feather_repl"
version = "0.1.0"
edition = "2021"
publish = false

[dependencies]
clap = { version = "4", features = ["derive"] }
homedir = "*"
num = "0.4"
num-bigint = "0.4"
num-rational = "0.4"
rustyline = "*"
yansi = "0.5"

[dev-dependencies]
combine = "4"
regex = "1"
