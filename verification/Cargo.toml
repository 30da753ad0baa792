[package]
name = "country_visits"
version = "0.1.0"
edition = "2021"
publish = false

[dependencies]
chrono = "=0.4.45"
geo = { version = "=0.33.1", features = ["serde"] }
serde = { version = "=1.0.229", features = ["derive"] }
