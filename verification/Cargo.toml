[package]
name = "ruwasm"
version = "0.1.0"
edition = "2021"
publish = false

[dependencies]
anyhow = "=1.0.104"
clap = { version = "=4.6.7", features = ["derive"] }
log = "=0.4.35"
num-complex = "=0.4.6"
stderrlog = "=0.6.0"
