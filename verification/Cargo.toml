[package]
name = "incite"
version = "0.1.0"
edition = "2021"
publish = false

[dependencies]
bytes = "0.4"
prost = "0.4"
chrono = "0.4"
futures = "0.1"
tokio = "0.1"
tokio-codec = "0.1"
tokio-tcp = "0.1"
tokio-timer = "0.2"
tokio-signal = "0.2"
slog = "2"
slog-async = "2"
slog-term = "2"
slog-json = "2"
slog-envlogger = "2"
dotenv = "0.13"
failure = "0.1"
error-chain = "0.12"
glob = "0.2"
