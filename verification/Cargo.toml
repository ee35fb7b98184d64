[package]
name = "backtesting"
version = "0.1.0"
edition = "2021"
publish = false

[dependencies]
chrono = "0.4"
rand = "0.8"
lazy_static = "1"
serde = { version = "1", features = ["derive"] }
serde_json = "1"
csv = "1"
toml = "0.8"
plotters = "0.3"
ureq = { version = "2", features = ["json"] }
ordered-float = "4"
statrs = "0.16"
