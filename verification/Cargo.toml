[package]
name = "adapto_rs"
version = "0.1.0"
edition = "2021"
publish = false

[dependencies]
clap = { version = "4", features = ["derive"] }
clap-num = "1"
file-format = "*"
num_cpus = "1"
rayon = "1"
rust-htslib = { version = "*", default-features = false }
