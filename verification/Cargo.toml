[package]
name = "tahoe_share"
version = "0.1.0"
edition = "2021"
publish = false

[dependencies]
bitcoin_hashes = "0.14"
data-encoding = "2"
rs_merkle = "1"
