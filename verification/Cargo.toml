[package]
name = "multiprocessor_scheduling"
version = "0.1.0"
edition = "2021"
publish = false

[dependencies]
indicatif = "=0.16.2"
console = "=0.16.6"
