[package]
name = "dns_server"
version = "0.1.0"
edition = "2021"
publish = false

[dependencies]
anyhow = "1"
color-eyre = "0.6"
rand = "0.8"
thiserror = "1"
tracing = "0.1"
tracing-subscriber = "0.3"
