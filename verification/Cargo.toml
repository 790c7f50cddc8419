[package]
name = "rdiag"
version = "0.1.0"
edition = "2021"
publish = false

[dependencies]
clap = { version = "=4.6.7", features = ["derive"] }
colored = "=3.1.1"
arp-toolkit = { version = "=0.3.2", features = ["sync"] }
ping-rs = "=0.1.2"
