[package]
name = "rinha"
version = "0.1.0"
edition = "2021"
publish = false

[dependencies]
axum = "=0.8.9"
flate2 = "=1.1.10"
rand = "0.10"
serde = { version = "=1.0.229", features = ["derive"] }
serde_json = "=1.0.154"
time = { version = "=0.3.55", features = ["serde", "serde-well-known", "formatting", "parsing", "macros"] }
tokio = { version = "=1.54.1", features = ["rt-multi-thread", "macros", "net"] }
