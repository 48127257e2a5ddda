[package]
name = "cryptogpt"
version = "0.1.0"
edition = "2021"
publish = false

[dependencies]
burn = { version = "=0.18.0", default-features = false, features = ["std", "ndarray", "autodiff"] }
clap = { version = "4", default-features = false, features = ["std", "derive"] }
rand = "0.8"
serde = { version = "1", features = ["derive"] }
serde_json = "1"
