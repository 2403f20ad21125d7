[package]
name = "diskann_garnet"
version = "0.1.0"
edition = "2021"
publish = false

[dependencies]
bytemuck = "1"
diskann = "=0.49.1"
diskann-providers = "=0.49.1"
diskann-vector = "=0.49.1"
tokio = { version = "1", features = ["rt"] }
