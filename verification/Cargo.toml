[package]
name = "phisherman"
version = "0.1.0"
edition = "2021"
publish = false

[dependencies]
uuid = { version = "*", features = ["v4"] }
chrono = "*"
axum = "*"
tokio = { version = "*", features = ["macros", "rt-multi-thread", "net"] }
lettre = { version = "*", default-features = false, features = ["smtp-transport", "builder"] }
serde = { version = "*", features = ["derive"] }
serde_json = "*"
dotenvy = "*"
