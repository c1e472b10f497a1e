[package]
name = "ril"
version = "0.1.0"
edition = "2021"
publish = false

[dependencies]
anyhow = "=1.0.104"
arrow = "=59.3.2"
command-fds = "=0.3.3"
crossbeam-channel = "=0.5.17"
num_cpus = "=1.17.0"
pyo3 = { version = "=0.30.1", features = ["auto-initialize"] }
pyo3-arrow = "=0.20.0"
