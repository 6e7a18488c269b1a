[package]
name = "jarindex"
version = "0.1.0"
edition = "2021"
publish = false

[dependencies]
semver = "*"
zip = "*"
walkdir = "*"
rayon = "*"
indicatif = "*"
colored = "*"
skim = "*"
serde = "*"
serde_json = "*"
