[package]
name = "ilytix"
version = "0.1.0"
edition = "2021"
publish = false

[dependencies]
anyhow = "=1.0.104"
blockhash = "=1.0.0"
clap = { version = "=4.6.7", features = ["derive"] }
console = "=0.15.11"
image = "=0.25.10"
indicatif = "=0.17.11"
walkdir = "=2.5.0"
