[package]
name = "credstore"
version = "0.1.0"
edition = "2021"
publish = false

[dependencies]
env_logger = "*"
envy = "*"
rusoto_core = { version = "*", default-features = false, features = ["rustls"] }
rusoto_secretsmanager = { version = "*", default-features = false, features = ["rustls"] }
serde = { version = "*", features = ["derive"] }
serde_derive = "*"
serde_json = "*"
tokio = { version = "*", features = ["rt"] }
uuid = { version = "*", features = ["v4"] }
