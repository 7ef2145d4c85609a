[package]
name = "catering_invoice"
version = "0.1.0"
edition = "2021"
publish = false

[dependencies]
chrono = "0.4"
serde = { version = "1", features = ["derive"] }
serde_json = "1"
printpdf = "0.8"
rfd = "0.15"
