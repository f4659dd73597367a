[package]
name = "xkcd_archive"
version = "0.1.0"
edition = "2021"
publish = false

[dependencies]
bit-vec = "*"
rand = "*"
regex = "*"
reqwest = { version = "*", default-features = false, features = ["blocking"] }
serde = { version = "*", features = ["derive"] }
serde_json = "*"
structopt = "*"
