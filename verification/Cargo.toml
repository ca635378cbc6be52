[package]
name = "fuzz_web"
version = "0.1.0"
edition = "2021"
publish = false

[dependencies]
actix-web = "4"
anyhow = "1"
lazy_static = "1"
nix = { version = "*", features = ["fs"] }
serde = { version = "1", features = ["derive"] }
toml = "*"
