[package]
name = "cache_latency"
version = "0.1.0"
edition = "2021"
publish = false

[dependencies]
bytesize = "2"
clap = { version = "4", features = ["derive"] }
core_affinity = "0.8"
hwlocality = "1.0.0-alpha.1"
quanta = "0.12"
rand = "0.9"
raw-cpuid = "11"
sysinfo = "*"
