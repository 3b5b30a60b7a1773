[package]
name = "cargo_align"
version = "0.1.0"
edition = "2021"
publish = false

[dependencies]
anyhow = "1"
cargo_metadata = "*"
clap = { version = "4", features = ["cargo"] }
env_logger = "*"
exitcode = "1"
ignore = "*"
indoc = "2"
log = "0.4"
thiserror = "*"
