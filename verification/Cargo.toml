[package]
name = "network_tickets"
version = "0.1.0"
edition = "2021"
publish = false

[dependencies]
sha3 = "0.10"
rand = "0.8"
base16ct = { version = "0.2", features = ["alloc"] }

[dev-dependencies]
crypto-bigint = "0.5"
