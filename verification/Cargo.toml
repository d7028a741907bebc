[package]
name = "s3_simulation"
version = "0.1.0"
edition = "2021"
publish = false

[dependencies]
serde = { version = "=1.0.229", features = ["derive"] }
rand = "=0.8.8"
clap = { version = "=4.5.61", features = ["derive"] }
