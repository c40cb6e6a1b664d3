[package]
name = "asar_archive"
version = "0.1.0"
edition = "2021"
publish = false

[dependencies]
serde_json = "=1.0.154"
console = "0.15"
dialoguer = "0.10"
indicatif = "0.17"
semver = "=1.0.28"
ureq = "=2.12.1"
