[package]
name = "probe_telemetry"
version = "0.1.0"
edition = "2021"
publish = false

[dependencies]
crossbeam = "*"
clap = { version = "*", features = ["derive"] }
ctrlc = "*"
