[package]
name = "mapgeneration"
version = "0.1.0"
edition = "2021"
publish = false

[dependencies]
rand_core = "0.6"
rand_pcg = "0.3"
image = { version = "0.24", default-features = false, features = ["png"] }
config = "0.11"
serde = { version = "1", features = ["derive"] }
serde_derive = "1"
