[package]
name = "stratamoto"
version = "0.1.0"
edition = "2021"
publish = false

[dependencies]
rand = "*"
postcard = { version = "*", features = ["alloc"] }
serde = { version = "1", features = ["derive"] }
regex = "1"
stratum-core = "*"
