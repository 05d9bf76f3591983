[package]
name = "netsim"
version = "0.1.0"
edition = "2021"
publish = false

[dependencies]
rand = "0.8"
futures = "0.3"
thiserror = "1"

[dependencies.tokio]
version = "1"
default-features = false
features = ["sync"]
