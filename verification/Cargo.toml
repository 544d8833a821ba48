[package]
name = "termimg"
version = "0.1.0"
edition = "2021"
publish = false

[dependencies]
flate2 = "=1.1.10"
lru = { version = "=0.12.5", default-features = false }
png = "=0.17.16"
serde = "=1.0.229"
