[package]
name = "qvs20"
version = "0.1.0"
edition = "2021"
publish = false

[dependencies]
ansi_term = "0.12"
clap = "2"
serde = "1"
serde_derive = "1"
