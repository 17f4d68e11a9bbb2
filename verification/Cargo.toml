[package]
name = "feature_mapper"
version = "0.1.11"
edition = "2021"
publish = false

[dependencies]
rayon = "1"
log = "0.4"
env_logger = { version = "0.11", default-features = false }
