[package]
name = "commit_stats"
version = "0.1.0"
edition = "2021"
publish = false

[dependencies]
chrono = "0.4"
clap = { version = "4", features = ["derive"] }
num_cpus = "1"
regex = "1"
