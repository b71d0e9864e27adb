[package]
name = "immix_rust"
version = "0.1.0"
edition = "2021"
publish = false

[dependencies]
crossbeam = "0.8"
generational-arena = "0.2"
lazy_static = "1"
log = "0.4"
memmap2 = "0.9"
num_cpus = "1"
parking_lot = "0.12"
