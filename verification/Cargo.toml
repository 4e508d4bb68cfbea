[package]
name = "qfin_twin"
version = "0.1.0"
edition = "2021"
publish = false

[dependencies]
chrono = { version = "=0.4.45", features = ["serde"] }
uuid = { version = "=1.29.0", features = ["v4", "serde"] }
rand = "=0.8.8"
rand_distr = "=0.4.3"
nalgebra = "=0.32.6"
serde = { version = "=1.0.229", features = ["derive"] }
