[package]
name = "rvab"
version = "0.1.0"
edition = "2021"
publish = false

[dependencies]
crc32fast = "*"
gpt = "*"
uuid = { version = "*", features = ["v4"] }
nix = { version = "*", features = ["fs"] }
serde = { version = "*", features = ["derive"] }
toml = "*"
indicatif = "*"
argh = "*"
rand = "*"
