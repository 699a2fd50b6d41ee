[package]
name = "bike_rides"
version = "0.1.0"
edition = "2021"
publish = false

[dependencies]
actix-files = { version = "0.6", default-features = false }
actix-web = { version = "4", default-features = false, features = ["macros"] }
byteorder = "1"
chrono = "0.4"
env_logger = "0.10"
indicatif = "0.17"
lazy_static = "1"
log = "0.4"
memmap = "0.7"
parking_lot = "0.12"
regex = "1"
reqwest = { version = "0.11", default-features = false, features = ["blocking", "rustls-tls"] }
serde = { version = "1", features = ["derive"] }
serde_json = "1"
