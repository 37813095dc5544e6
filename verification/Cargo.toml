[package]
name = "transafe_server"
version = "0.1.0"
edition = "2021"
publish = false

[dependencies]
aes = "0.8"
rust-crypto = "0.2"
base64 = "0.13"
rand = "0.8"
chrono = "0.4"
serde = { version = "1", features = ["derive"] }
toml = "0.8"
actix-web = "4"
actix-rt = "2"
diesel = { version = "2", features = ["sqlite", "r2d2"] }
