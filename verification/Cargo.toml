[package]
name = "dag_sched_sim"
version = "0.1.0"
edition = "2021"
publish = false

[dependencies]
petgraph = "*"
num-integer = "*"
clap = { version = "*", features = ["derive"] }
serde = { version = "*", features = ["derive"] }
serde_yaml = "*"
yaml-rust = "*"
