[package]
name = "wsbrd_cli"
version = "0.1.0"
edition = "2021"
publish = false

[dependencies]
clap = "=2.34.0"
dbus = { version = "=0.9.12", features = ["vendored"] }
