[package]
name = "one_brc"
version = "0.1.0"
edition = "2021"
publish = false

[dependencies]
num_cpus = "*"
rustc-hash = "*"
threadpool = "*"
tokio = { version = "*", features = ["rt-multi-thread", "sync", "macros"] }
