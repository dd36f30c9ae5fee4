[package]
name = "distributed_mapreduce"
version = "0.1.0"
edition = "2021"
publish = false

[dependencies]
uuid = { version = "*", features = ["v4"] }
num_cpus = "*"
tokio = { version = "*", features = ["sync"] }
chrono = "*"
colored = "*"
