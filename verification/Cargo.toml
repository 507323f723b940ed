[package]
name = "reliable_transport"
version = "0.1.0"
edition = "2021"
publish = false

[dependencies]
sha2 = "0.10"
rand = "0.8"
generic-array = "0.14"
typenum = "1"
clap = { version = "4", features = ["derive"] }
