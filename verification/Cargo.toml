[package]
name = "audio-connector"
version = "0.0.0"
edition = "2021"
publish = false

[dependencies]
env_logger = "0.11"
jack = "0.13"
log = "0.4"
regex = "1"
signal-hook = "0.3"
toml = "0.9"
