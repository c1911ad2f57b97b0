[package]
name = "cargo_machete_nk"
version = "0.1.0"
edition = "2021"
publish = false

[dependencies]
anyhow = "1"
argh = "0.1"
hex = "0.4"
log = "0.4"
merkle_hash = "3"
pretty_env_logger = "0.5"
rayon = "1"
serde = { version = "1", features = ["derive"] }
serde_json = "1"
toml_edit = "0.19"
uuid = { version = "1", features = ["v4"] }
walkdir = "2"
