[package]
name = "pidgit"
version = "0.1.0"
edition = "2021"
publish = false

[dependencies]
ansi_term = "0.12"
atty = "0.2"
bit-vec = "0.6"
chrono = "0.4"
clap = "2.33"
flate2 = "1"
hex = "0.4"
log = "0.4"
pretty_env_logger = "0.4"
sha1 = "0.6"
