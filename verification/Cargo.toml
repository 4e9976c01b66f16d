[package]
name = "atpacks"
version = "0.1.0"
edition = "2021"
publish = false

[dependencies]
zip = "*"
reqwest = { version = "*", default-features = false, features = ["blocking", "rustls-tls"] }
