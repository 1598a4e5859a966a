[package]
name = "crafting_helper"
version = "0.1.0"
edition = "2021"
publish = false

[dependencies]
argparse = "0.2"
serde = { version = "1", features = ["derive"] }
serde_derive = "1"
toml = "0.8"
