[package]
name = "dre"
version = "0.1.0"
edition = "2021"
publish = false

[dependencies]
rust_decimal = "=1.43.0"
rand = "=0.8.8"
rand_seeder = "=0.3.0"
chrono = "=0.4.45"
itertools = "=0.15.0"
indexmap = "=2.14.2"
ahash = "=0.8.12"
serde = { version = "=1.0.229", features = ["derive"] }
serde_json = "=1.0.154"
anyhow = "=1.0.104"
log = "=0.4.35"
num-traits = "=0.2.19"
tabular = "0.2"
