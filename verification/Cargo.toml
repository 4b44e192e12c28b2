[package]
name = "rscsv"
version = "0.1.0"
edition = "2021"
publish = false

[dependencies]
csv = "1"
csv-core = "0.1"
magnus = "0.7"
