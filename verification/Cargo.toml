[package]
name = "procview"
version = "0.1.0"
edition = "2021"
publish = false

[dependencies]
hex = "*"
procfs = "*"
benfred-read-process-memory = "*"
sysinfo = "*"
