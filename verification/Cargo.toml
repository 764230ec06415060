[package]
name = "gbps"
version = "0.1.0"
edition = "2021"
publish = false

[dependencies]
rand = "0.8"
slog = "2"
slog-term = "2"
slog-async = "2"
log = "0.4"
log4rs = "1"
