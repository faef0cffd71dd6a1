[package]
name = "route_optimizer"
version = "0.1.0"
edition = "2021"
publish = false

[dependencies]
nu-ansi-term = "=0.50.3"
itertools = "=0.15.0"
factorial = "=0.4.0"
scraper = "=0.29.0"
reqwest = { version = "=0.12.28", default-features = false, features = ["rustls-tls"] }
tokio = { version = "=1.54.1", features = ["rt"] }
futures = "=0.3.34"
eframe = { version = "*", default-features = false, features = ["default_fonts", "glow", "x11"] }
crossbeam = "0.8"
