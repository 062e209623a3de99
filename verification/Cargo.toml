[package]
name = "aeolus"
version = "0.1.0"
edition = "2021"
publish = false

[dependencies]
clap = { version = "4", features = ["derive"] }
serde = { version = "1", features = ["derive"] }
toml = "0.8"
config = { version = "0.13", default-features = false, features = ["toml"] }
rlua = "0.19"
num-complex = "0.4"
ndarray = "0.15"
ndarray-linalg = "0.16"
