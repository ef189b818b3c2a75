[package]
name = "darkui"
version = "0.1.0"
edition = "2021"
publish = false

[dependencies]
darkfi-serial = "*"
regex = "1"
url = "2"
blake3 = "1"
chrono = "0.4"
