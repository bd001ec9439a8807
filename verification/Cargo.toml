[package]
name = "csv_diff"
version = "0.1.0"
edition = "2021"
publish = false

[dependencies]
docopt = "*"
serde = "*"
serde_derive = "*"
log = "*"
