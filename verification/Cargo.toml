[package]
name = "stella_stage"
version = "0.1.0"
edition = "2021"
publish = false

[dependencies]
aes = "*"
cbc = "*"
crc = "*"
flate2 = "*"
rand_mt = "*"
indexmap = "*"
quick-xml = { version = "*", features = ["async-tokio"] }
tokio = { version = "1", features = ["full"] }
clap = { version = "4", features = ["derive"] }

[dev-dependencies]
nom = "*"
