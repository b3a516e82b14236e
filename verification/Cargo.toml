[package]
name = "metrology"
version = "0.1.0"
edition = "2021"
publish = false

[dependencies]
average = "=0.13.1"
serde = { version = "=1.0.229", features = ["derive"] }
serde_json = "=1.0.154"
structopt = "=0.3.26"
