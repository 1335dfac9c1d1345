[package]
name = "dux"
version = "0.1.0"
edition = "2021"
publish = false

[dependencies]
clap = { version = "4", features = ["derive"] }
cli-table = "0.4"
crossbeam-channel = "0.5"
min-max-heap = "1.3"
num_cpus = "1"
pretty-bytes = "0.2"
thousands = "0.2"
