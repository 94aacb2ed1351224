[package]
name = "talentsched"
version = "0.1.0"
edition = "2021"
publish = false

[dependencies]
ddo = "*"
clap = { version = "*", features = ["derive"] }
serde = { version = "*", features = ["derive"] }
serde_json = "*"
rand = "*"
rand_chacha = "*"
rand_distr = "*"
ordered-float = "*"
