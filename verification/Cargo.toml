[package]
name = "hoomd"
version = "0.1.0"
edition = "2021"
publish = false

[dependencies]
arrayvec = "0.7"
rand_core = "0.9"
rand = "0.9"
serde = { version = "1", features = ["derive"] }
thiserror = "2"
