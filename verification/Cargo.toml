[package]
name = "kel_core"
version = "0.1.0"
edition = "2021"

[dependencies]
keri-core = "*"
cesrox = "*"
said = "*"
serde = { version = "*", features = ["derive"] }
serde_json = "*"
