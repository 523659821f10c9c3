[package]
name = "meta_chronic"
version = "0.1.0"
edition = "2021"
publish = false

[dependencies]
reqwest = { version = "*", default-features = false, features = ["blocking", "rustls-tls"] }
rocket = { version = "*", features = ["json"] }
select = "*"
serde = { version = "*", features = ["derive"] }
serde_json = "*"
